use zpack::package::order::Comparison;
use zpack::package::registry::WipVersionRegistry;
use zpack::package::version::{ParseError, Part, Version, WildcardType};

fn version(text: &str) -> Version {
    Version::new(text).expect("a version")
}

#[test]
fn version_parts_are_read_in_order() {
    let v = version("1.2.3-alpha");
    assert_eq!(
        v.parts(),
        &[
            Part::Int(1),
            Part::Sep('.'),
            Part::Int(2),
            Part::Sep('.'),
            Part::Int(3),
            Part::Sep('-'),
            Part::Str("alpha".to_string()),
        ]
    );
    assert_eq!(v.num_segments(), 4);
    assert_eq!(v.num_separators(), 3);
    assert_eq!(v.to_text(), "1.2.3-alpha");
}

#[test]
fn version_leading_v_before_digit_is_passed_over() {
    assert_eq!(version("v123456789.123456789.123456789-123456789").to_text(), "123456789.123456789.123456789-123456789");
    assert_eq!(version("vendor").parts(), &[Part::Str("vendor".to_string())]);
}

#[test]
fn version_wildcards_are_read() {
    assert_eq!(
        version("1.*.>").parts(),
        &[
            Part::Int(1),
            Part::Sep('.'),
            Part::Wildcard(WildcardType::Single),
            Part::Sep('.'),
            Part::Wildcard(WildcardType::Rest),
        ]
    );
    assert!(!version("1.*").is_concrete());
    assert!(version("1.2").is_concrete());
}

#[test]
fn version_errors_name_what_is_wrong() {
    assert!(matches!(Version::new(""), Err(ParseError::TrailingSeparator)));
    assert!(matches!(Version::new("1.2."), Err(ParseError::TrailingSeparator)));
    assert!(matches!(Version::new("1..2"), Err(ParseError::EmptyPart)));
    assert!(matches!(Version::new(".1"), Err(ParseError::EmptyPart)));
    assert!(matches!(Version::new("1.>.2"), Err(ParseError::PartAfterRest)));
    match Version::new("1.a_b") {
        Err(ParseError::InvalidPart(part)) => assert_eq!(part, "a_b"),
        _ => panic!("expected an invalid part"),
    }
}

#[test]
fn version_number_too_large_is_a_name() {
    let v = version("99999999999999999999999999999999999999999999");
    assert!(matches!(&v.parts()[0], Part::Str(_)));
}

#[test]
fn version_order_follows_the_rules() {
    let less = |a: &str, b: &str| {
        assert_eq!(version(a).compare(&version(b)), Some(Comparison::Less), "{a} < {b}");
        assert_eq!(version(b).compare(&version(a)), Some(Comparison::Greater), "{b} > {a}");
    };
    less("1.2.3", "1.2.4");
    less("1.2.4", "1.3.2");
    less("1.3.2", "2.3");
    less("1.alpha", "1.2");
    less("1.2.3", "1.2");
    less("1.2.3", "1");
    less("1.2.3-alpha", "1.2.3");
    less("1.stable", "1.latest");
    less("1.latest", "1.beta");
    less("1.beta", "1.alpha");
    less("1.alpha", "1.master");
    less("1.master", "1.main");
    less("1.main", "1.devel");
    less("1.devel", "1.dev");
    less("1.dev", "1.git");
    less("1.zzz", "1.stable");
    less("1.abc", "1.abd");
    less("1.ab", "1.abc");
    assert_eq!(version("1.2").compare(&version("1.2")), Some(Comparison::Equal));
    assert_eq!(version("1.2").compare(&version("1-2")), None);
    assert_eq!(version("1.*").compare(&version("1.2")), None);
    assert_eq!(version("0.5").compare(&version("1-3")), Some(Comparison::Less));
}

#[test]
fn version_interning_follows_the_order() {
    let mut wip = WipVersionRegistry::new();
    for text in ["1.2.3", "1.2.3-alpha", "1.2", "2.0", "1.2.3", "1.*"] {
        wip.push(version(text));
    }
    let built = wip.build().expect("all versions can be ordered");
    assert_eq!(built.num_version(), 4);
    let idx = |text: &str| built.lookup(&version(text)).expect("interned");
    assert!(idx("1.2.3-alpha") < idx("1.2.3"));
    assert!(idx("1.2.3") < idx("2.0"));
    assert!(idx("1.2.3") < idx("1.2"));
    assert!(idx("1.2") < idx("2.0"));
    assert_eq!(idx("1.2.3-alpha"), 0);
    assert_eq!(idx("2.0"), 3);
    assert_eq!(built.lookup(&version("1.*")), None);
    assert_eq!(built.lookup(&version("9.9")), None);
    assert_eq!(built.lookup_id(&0).map(|v| v.to_text()), Some("1.2.3-alpha".to_string()));
    assert!(built.lookup_id(&4).is_none());
}

#[test]
fn version_interning_fails_on_versions_without_order() {
    let mut wip = WipVersionRegistry::new();
    wip.push(version("1.2"));
    wip.push(version("1-2"));
    assert!(wip.build().is_err());
}

#[test]
fn version_order_is_total_and_transitive() {
    let texts = [
        "1", "1.2", "1.2.3", "1.2.3.4", "1.2.4", "1.3", "2", "2.0", "1.alpha", "1.beta", "1.git",
        "1.zeta", "1.abc", "alpha", "0", "10", "1.10", "1.9",
    ];
    let versions: Vec<Version> = texts.iter().map(|t| version(t)).collect();
    for a in &versions {
        assert_eq!(a.compare(a), Some(Comparison::Equal));
        for b in &versions {
            let ab = a.compare(b).expect("one separator throughout");
            let ba = b.compare(a).expect("one separator throughout");
            match ab {
                Comparison::Less => assert_eq!(ba, Comparison::Greater),
                Comparison::Greater => assert_eq!(ba, Comparison::Less),
                Comparison::Equal => {
                    assert_eq!(ba, Comparison::Equal);
                    assert!(a.same(b));
                }
            }
            for c in &versions {
                if ab == Comparison::Less && b.compare(c) == Some(Comparison::Less) {
                    assert_eq!(a.compare(c), Some(Comparison::Less));
                }
            }
        }
    }
}

#[test]
fn versions_are_noted_through_the_registry() {
    let mut registry = zpack::package::registry::WipRegistry::new();
    registry.version_registry_mut().push(version("3.1"));
    registry.push_version(version("3.0"));
    let built = registry.build().unwrap();
    assert_eq!(built.version_registry().num_version(), 2);
    assert_eq!(built.version_registry().lookup(&version("3.0")), Some(0));
    assert_eq!(built.version_registry().lookup(&version("3.1")), Some(1));
}
