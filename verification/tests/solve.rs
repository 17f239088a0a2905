use zpack::package::constraint::{
    Cmp, CmpType, Constraint, Depends, IfThen, Maximize, Minimize, NumOf, SpecOption, Value,
};
use zpack::package::error::{InvalidReason, SolverError};
use zpack::package::outline::{PackageOutline, SpecOutline};
use zpack::package::plan::PackagePlan;
use zpack::package::version::Version;
use zpack::solver::problem::Problem;
use zpack::package::registry::WipRegistry;
use zpack::solver::solve::{is_plain_text, run, Outcome};
use zpack::solver::term::{Sort, Term};
use zpack::spec::{SpecOptionType, SpecOptionValue};

fn depends(on: &str) -> Constraint {
    Constraint::Depends(Box::new(Depends::new(on.to_string())))
}

fn option(package: &str, name: &str) -> Constraint {
    Constraint::SpecOption(Box::new(SpecOption {
        package_name: package.to_string(),
        option_name: name.to_string(),
    }))
}

fn value(v: SpecOptionValue) -> Constraint {
    Constraint::Value(Box::new(Value { value: v }))
}

fn cmp(lhs: Constraint, op: CmpType, rhs: Constraint) -> Constraint {
    Constraint::Cmp(Box::new(Cmp { lhs, rhs, op }))
}

fn if_then(cond: Constraint, then: Constraint) -> Constraint {
    Constraint::IfThen(Box::new(IfThen { cond, then }))
}

fn num_of(of: Vec<Constraint>) -> Constraint {
    Constraint::NumOf(Box::new(NumOf { of }))
}

fn outline(
    name: &str,
    constraints: Vec<Constraint>,
    set_options: Vec<(&str, SpecOptionValue)>,
) -> PackageOutline {
    PackageOutline {
        name: name.to_string(),
        constraints,
        set_options: set_options.into_iter().map(|(k, v)| (k.to_string(), v)).collect(),
        set_defaults: Vec::new(),
    }
}

fn graph(outlines: Vec<PackageOutline>, required: &[&str]) -> SpecOutline {
    let mut graph = SpecOutline::new(outlines).expect("a graph");
    for r in required {
        graph.required.push(r.to_string());
    }
    graph
}

fn plan_of<'a>(plans: &'a [PackagePlan], name: &str) -> &'a PackagePlan {
    plans.iter().find(|p| p.package == name).expect("a plan for the package")
}

fn active(plans: &[PackagePlan], name: &str) -> bool {
    plan_of(plans, name).activated
}

#[test]
fn single_root_with_one_dependency() {
    let graph = graph(
        vec![outline("a", vec![depends("b")], vec![]), outline("b", vec![], vec![])],
        &["a"],
    );
    let plans = graph.solve().expect("a plan");
    assert_eq!(plans.len(), 2);
    assert!(active(&plans, "a"));
    assert!(active(&plans, "b"));
    assert!(plan_of(&plans, "a").options.is_empty());
    assert!(plan_of(&plans, "b").options.is_empty());
}

#[test]
fn bool_option_pin_propagates() {
    let graph = graph(
        vec![
            outline(
                "a",
                vec![if_then(
                    cmp(option("a", "use_x"), CmpType::Equal, value(SpecOptionValue::Bool(true))),
                    depends("b"),
                )],
                vec![("use_x", SpecOptionValue::Bool(true))],
            ),
            outline("b", vec![], vec![]),
            outline("c", vec![], vec![]),
        ],
        &["a"],
    );
    let plans = graph.solve().expect("a plan");
    assert!(active(&plans, "a"));
    assert!(active(&plans, "b"));
    assert!(!active(&plans, "c"));
    assert!(plan_of(&plans, "c").options.is_empty());
    let a = plan_of(&plans, "a");
    assert_eq!(a.options.len(), 1);
    assert_eq!(a.options[0].0, "use_x");
    assert!(matches!(a.options[0].1, SpecOptionValue::Bool(true)));
}

#[test]
fn num_of_exactly_one_selects() {
    let graph = graph(
        vec![
            outline(
                "mpi",
                vec![cmp(
                    num_of(vec![
                        if_then(option("mpi", "ompi"), depends("openmpi")),
                        if_then(option("mpi", "mpich"), depends("mpich")),
                    ]),
                    CmpType::Equal,
                    value(SpecOptionValue::Int(1)),
                )],
                vec![],
            ),
            outline("openmpi", vec![], vec![]),
            outline("mpich", vec![], vec![]),
        ],
        &["mpi"],
    );
    let plans = graph.solve().expect("a plan");
    assert!(active(&plans, "mpi"));
    let chosen = [active(&plans, "openmpi"), active(&plans, "mpich")];
    assert!(chosen.iter().filter(|c| **c).count() <= 1);
}

#[test]
fn least_number_of_packages_is_switched_on() {
    let either = |name: &str| {
        if_then(
            cmp(option("app", "backend"), CmpType::Equal, value(SpecOptionValue::Str(name.into()))),
            depends(name),
        )
    };
    let one_of = cmp(
        num_of(vec![
            cmp(option("app", "backend"), CmpType::Equal, value(SpecOptionValue::Str("x".into()))),
            cmp(option("app", "backend"), CmpType::Equal, value(SpecOptionValue::Str("y".into()))),
        ]),
        CmpType::Equal,
        value(SpecOptionValue::Int(1)),
    );
    let graph = graph(
        vec![
            outline("app", vec![either("x"), either("y"), one_of], vec![]),
            outline("x", vec![], vec![]),
            outline("y", vec![], vec![]),
            outline("unused", vec![], vec![]),
        ],
        &["app"],
    );
    let plans = graph.solve().expect("a plan");
    assert!(active(&plans, "app"));
    assert!(!active(&plans, "unused"));
    assert_eq!(plans.iter().filter(|p| p.activated).count(), 2);
    assert!(active(&plans, "x") != active(&plans, "y"));
    let backend = plan_of(&plans, "app").options[0].1.to_text();
    assert_eq!(active(&plans, "x"), backend == "x");
    assert_eq!(active(&plans, "y"), backend == "y");
}

#[test]
fn unsat_core_carries_descriptions() {
    let graph = graph(
        vec![outline(
            "a",
            vec![cmp(option("a", "x"), CmpType::Equal, value(SpecOptionValue::Bool(false)))],
            vec![("x", SpecOptionValue::Bool(true))],
        )],
        &["a"],
    );
    match graph.solve() {
        Err(SolverError::Unsat(core)) => {
            assert!(core.contains(&"[ Package 'a' -> Option 'x' ] == [ true ]".to_string()));
            assert!(core.contains(&"[ Package 'a' -> Option 'x' ] == [ false ]".to_string()));
            assert!(core.contains(&"a required explicitly".to_string()));
            assert_eq!(core.len(), 3);
        }
        other => panic!("expected no plan, got {other:?}"),
    }
}

#[test]
fn deactivated_package_imposes_nothing() {
    let make = |pin: Option<i64>| {
        let mut outlines = vec![
            outline("a", vec![], vec![]),
            outline(
                "p",
                vec![cmp(option("p", "level"), CmpType::Less, value(SpecOptionValue::Int(0)))],
                vec![],
            ),
        ];
        if let Some(v) = pin {
            outlines.push(outline(
                "q",
                vec![cmp(option("p", "level"), CmpType::Equal, value(SpecOptionValue::Int(v)))],
                vec![],
            ));
        }
        outlines
    };
    let plans = graph(make(None), &["a"]).solve().expect("a plan");
    assert!(!active(&plans, "p"));
    let plans = graph(make(Some(7)), &["a", "q"]).solve().expect("a plan with the option flipped");
    assert!(!active(&plans, "p"));
    assert!(active(&plans, "q"));
    assert!(matches!(graph(make(Some(7)), &["a", "q", "p"]).solve(), Err(SolverError::Unsat(_))));
}

#[test]
fn version_options_follow_the_version_order() {
    let version = |text: &str| SpecOptionValue::Version(Version::new(text).unwrap());
    let graph = graph(
        vec![outline(
            "a",
            vec![
                cmp(option("a", "v"), CmpType::GreaterOrEqual, value(version("1.2.3-alpha"))),
                cmp(option("a", "v"), CmpType::Less, value(version("2.0"))),
                cmp(option("a", "v"), CmpType::NotEqual, value(version("1.2.3"))),
                cmp(option("a", "v"), CmpType::NotEqual, value(version("1.2.3-alpha"))),
                cmp(option("a", "v"), CmpType::LessOrEqual, value(version("1.2"))),
                Constraint::Minimize(Box::new(Minimize { item: option("a", "v") })),
            ],
            vec![],
        )],
        &["a"],
    );
    let plans = graph.solve().expect("a plan");
    let a = plan_of(&plans, "a");
    assert_eq!(a.options.len(), 1);
    assert_eq!(a.options[0].1.to_text(), "1.2");
    assert!(a.activated);
}

#[test]
fn version_wildcards_match_part_by_part() {
    let version = |text: &str| SpecOptionValue::Version(Version::new(text).unwrap());
    let graph = graph(
        vec![outline(
            "a",
            vec![
                cmp(option("a", "v"), CmpType::Equal, value(version("1.*.3"))),
                cmp(option("a", "v"), CmpType::NotEqual, value(version("1.2.>"))),
                cmp(option("a", "w"), CmpType::Equal, value(version("1.2.3"))),
                cmp(option("a", "w"), CmpType::NotEqual, value(version("1.4.3"))),
                cmp(option("a", "w"), CmpType::NotEqual, value(version("2.4.3"))),
            ],
            vec![],
        )],
        &["a"],
    );
    let plans = graph.solve().expect("a plan");
    let a = plan_of(&plans, "a");
    let v = a.options.iter().find(|(k, _)| k == "v").unwrap();
    assert_eq!(v.1.to_text(), "1.4.3");
}

#[test]
fn texts_are_ordered_as_in_a_dictionary() {
    let text = |t: &str| value(SpecOptionValue::Str(t.to_string()));
    let with = |op: CmpType, bound: &str| {
        graph(
            vec![outline(
                "a",
                vec![
                    cmp(option("a", "s"), CmpType::Equal, text("apple")),
                    cmp(option("a", "s"), op, text(bound)),
                ],
                vec![],
            )],
            &["a"],
        )
        .solve()
    };
    assert!(with(CmpType::Less, "apple juice").is_ok());
    assert!(with(CmpType::LessOrEqual, "apple").is_ok());
    assert!(with(CmpType::GreaterOrEqual, "apple").is_ok());
    assert!(with(CmpType::Greater, "appl").is_ok());
    assert!(matches!(with(CmpType::Less, "apple"), Err(SolverError::Unsat(_))));
    assert!(matches!(with(CmpType::Greater, "apple juice"), Err(SolverError::Unsat(_))));
    assert!(matches!(with(CmpType::LessOrEqual, "appl"), Err(SolverError::Unsat(_))));
    assert!(matches!(with(CmpType::GreaterOrEqual, "b"), Err(SolverError::Unsat(_))));
    let plans = with(CmpType::Less, "b").expect("a plan");
    assert_eq!(plan_of(&plans, "a").options[0].1.to_text(), "apple");
}

#[test]
fn maximize_is_an_objective() {
    let graph = graph(
        vec![outline(
            "a",
            vec![
                cmp(option("a", "n"), CmpType::LessOrEqual, value(SpecOptionValue::Int(41))),
                cmp(option("a", "n"), CmpType::Greater, value(SpecOptionValue::Int(3))),
                Constraint::Maximize(Box::new(Maximize { item: option("a", "n") })),
            ],
            vec![],
        )],
        &["a"],
    );
    let plans = graph.solve().expect("a plan");
    assert!(matches!(plan_of(&plans, "a").options[0].1, SpecOptionValue::Int(41)));
}

#[test]
fn type_errors_are_reported() {
    let solve = |constraints: Vec<Constraint>, pins: Vec<(&str, SpecOptionValue)>| {
        graph(vec![outline("a", constraints, pins)], &["a"]).solve()
    };
    assert!(matches!(
        solve(
            vec![cmp(option("a", "x"), CmpType::Equal, value(SpecOptionValue::Int(1)))],
            vec![("x", SpecOptionValue::Bool(true))]
        ),
        Err(SolverError::IncorrectConstraintType { .. })
    ));
    assert!(matches!(
        solve(vec![cmp(option("a", "x"), CmpType::Equal, option("a", "y"))], vec![]),
        Err(SolverError::UnknownType { .. })
    ));
    assert!(matches!(
        solve(
            vec![cmp(option("a", "x"), CmpType::Less, value(SpecOptionValue::Bool(true)))],
            vec![]
        ),
        Err(SolverError::InvalidConstraint(InvalidReason::Unordered))
    ));
    assert!(matches!(
        solve(vec![if_then(value(SpecOptionValue::Int(1)), depends("a"))], vec![]),
        Err(SolverError::InvalidConstraint(InvalidReason::Condition))
    ));
    assert!(matches!(
        solve(vec![if_then(depends("a"), num_of(vec![]))], vec![]),
        Err(SolverError::InvalidConstraint(InvalidReason::NotBoolean))
    ));
    assert!(matches!(
        solve(
            vec![Constraint::Maximize(Box::new(Maximize {
                item: value(SpecOptionValue::Bool(true))
            }))],
            vec![]
        ),
        Err(SolverError::InvalidConstraint(InvalidReason::Objective))
    ));
    assert!(matches!(
        solve(
            vec![cmp(
                option("a", "v"),
                CmpType::Less,
                value(SpecOptionValue::Version(Version::new("1.*").unwrap()))
            )],
            vec![]
        ),
        Err(SolverError::InvalidConstraint(InvalidReason::OrderedPattern))
    ));
}

#[test]
fn option_of_a_package_without_outline_gets_a_variable() {
    let plans = graph(vec![outline("a", vec![option("ghost", "x")], vec![])], &["a"])
        .solve()
        .expect("a plan");
    assert_eq!(plans.len(), 1);
    assert!(active(&plans, "a"));
    assert!(plan_of(&plans, "a").options.is_empty());
}

#[test]
fn condition_is_judged_without_the_packages() {
    let mut registry = WipRegistry::new();
    let bad = if_then(value(SpecOptionValue::Int(1)), depends("b"));
    assert!(matches!(
        bad.type_check(&mut registry),
        Err(SolverError::InvalidConstraint(InvalidReason::Condition))
    ));
    let mut registry = WipRegistry::new();
    let good = if_then(option("a", "x"), depends("b"));
    assert!(good.type_check(&mut registry).is_ok());
    let at = registry.lookup_option("a", Some("x")).expect("a line for the option");
    assert_eq!(registry.option_type(at), SpecOptionType::Bool);
    assert_eq!(registry.lookup_option("b", None), None);
}

#[test]
fn text_with_an_escape_is_turned_down() {
    assert!(is_plain_text("release 1.2 (stable)"));
    assert!(!is_plain_text("a\\u{62}"));
    assert!(!is_plain_text("tab\there"));
    assert!(!is_plain_text("caf\u{e9}"));
    let pinned = graph(
        vec![outline("a", vec![], vec![("x", SpecOptionValue::Str("a\\u{62}".to_string()))])],
        &["a"],
    )
    .solve();
    assert!(matches!(pinned, Err(SolverError::Unsupported)));
    let plain = graph(
        vec![outline("a", vec![], vec![("x", SpecOptionValue::Str("ab".to_string()))])],
        &["a"],
    )
    .solve()
    .expect("a plan");
    let options = &plan_of(&plain, "a").options;
    assert_eq!(options.len(), 1);
    assert_eq!(options[0].0, "x");
    assert!(matches!(&options[0].1, SpecOptionValue::Str(s) if s == "ab"));
}

#[test]
fn missing_required_package_is_reported() {
    let result = graph(vec![outline("a", vec![], vec![])], &["ghost"]).solve();
    match result {
        Err(SolverError::MissingPackage { dep }) => assert_eq!(dep, "ghost"),
        other => panic!("expected a missing package, got {other:?}"),
    }
}

#[test]
fn problem_with_float_is_turned_down() {
    let mut problem = Problem::new();
    problem.soft.push((
        Term::Eq(Box::new(Term::Var("x".to_string(), Sort::Float)), Box::new(Term::Float(0))),
        1,
    ));
    let registry = zpack::package::registry::WipRegistry::new().build().unwrap();
    assert!(matches!(run(&problem, &registry), Err(SolverError::Unsupported)));
    let mut lowered = Problem::new();
    lowered.asserted.push((
        Term::Ne(Box::new(Term::Int(1)), Box::new(Term::Index(1))),
        "0".to_string(),
    ));
    match run(&lowered, &registry) {
        Ok(Outcome::Unsat(core)) => {
            assert_eq!(registry.explain_core(&core).len(), 1);
        }
        other => panic!("expected no answer, got {other:?}"),
    }
}

#[test]
fn check_of_types_does_not_hang_on_the_order() {
    let first = || {
        vec![
            outline(
                "a",
                vec![
                    cmp(option("a", "x"), CmpType::Equal, option("b", "y")),
                    cmp(option("b", "y"), CmpType::Less, value(SpecOptionValue::Int(3))),
                    depends("b"),
                ],
                vec![],
            ),
            outline("b", vec![if_then(option("b", "on"), depends("a"))], vec![]),
        ]
    };
    let second = || {
        vec![
            outline("b", vec![if_then(option("b", "on"), depends("a"))], vec![]),
            outline(
                "a",
                vec![
                    depends("b"),
                    cmp(option("b", "y"), CmpType::Less, value(SpecOptionValue::Int(3))),
                    cmp(option("a", "x"), CmpType::Equal, option("b", "y")),
                ],
                vec![],
            ),
        ]
    };
    let mut one = WipRegistry::new();
    let mut other = WipRegistry::new();
    assert!(SpecOutline::new(first()).unwrap().type_check(&mut one).is_ok());
    assert!(SpecOutline::new(second()).unwrap().type_check(&mut other).is_ok());
    for (package, name, dtype) in [
        ("a", "x", SpecOptionType::Int),
        ("b", "y", SpecOptionType::Int),
        ("b", "on", SpecOptionType::Bool),
    ] {
        let at = one.lookup_option(package, Some(name)).expect("typed");
        assert_eq!(one.option_type(at), dtype);
        let at = other.lookup_option(package, Some(name)).expect("typed");
        assert_eq!(other.option_type(at), dtype);
    }

    let open = |turned: bool| {
        let mut constraints = vec![
            cmp(option("a", "x"), CmpType::Equal, option("a", "y")),
            cmp(option("a", "z"), CmpType::Equal, value(SpecOptionValue::Int(1))),
        ];
        if turned {
            constraints.reverse();
        }
        SpecOutline::new(vec![outline("a", constraints, vec![])]).unwrap()
    };
    let mut one = WipRegistry::new();
    let mut other = WipRegistry::new();
    assert!(matches!(open(false).type_check(&mut one), Err(SolverError::UnknownType { .. })));
    assert!(matches!(open(true).type_check(&mut other), Err(SolverError::UnknownType { .. })));
}

#[test]
fn types_are_told_along_a_long_chain() {
    let mut constraints = Vec::new();
    for i in (0..12).rev() {
        constraints.push(cmp(
            option("a", &format!("o{}", i + 1)),
            CmpType::Equal,
            option("a", &format!("o{i}")),
        ));
    }
    constraints.insert(6, cmp(option("a", "o0"), CmpType::Equal, value(SpecOptionValue::Str("s".to_string()))));
    let graph = SpecOutline::new(vec![outline("a", constraints, vec![])]).unwrap();
    let mut registry = WipRegistry::new();
    assert!(graph.type_check(&mut registry).is_ok());
    for i in 0..=12 {
        let at = registry.lookup_option("a", Some(&format!("o{i}"))).expect("typed");
        assert_eq!(registry.option_type(at), SpecOptionType::Str);
    }
}

#[test]
fn switches_are_made_where_the_registry_has_none() {
    let graph = graph(
        vec![
            outline("a", vec![cmp(option("a", "x"), CmpType::Equal, value(SpecOptionValue::Int(1)))], vec![]),
            outline("b", vec![], vec![]),
        ],
        &[],
    );
    let mut registry = WipRegistry::new();
    registry.insert_option_type("a", Some("x"), SpecOptionType::Int).unwrap();
    let mut problem = Problem::new();
    graph.create_tracking_variables(&mut problem, &mut registry).unwrap();
    assert_eq!(problem.soft.len(), 2);
    assert!(problem.soft.iter().all(|(_, weight)| *weight == 1));
    assert!(problem.asserted.is_empty());
    for (package, option, name) in [("a", None, "a"), ("b", None, "b"), ("a", Some("x"), "a/x")] {
        let at = registry.lookup_option(package, option).expect("a line");
        assert_eq!(registry.option_variable(at), Some(&name.to_string()));
    }
    assert_eq!(registry.option_type(registry.lookup_option("b", None).unwrap()), SpecOptionType::Bool);

    let mut blank = WipRegistry::new();
    let mut problem = Problem::new();
    match graph.create_tracking_variables(&mut problem, &mut blank) {
        Err(SolverError::MissingVariable { package, name }) => {
            assert_eq!(package, "a");
            assert_eq!(name, "x");
        }
        other => panic!("expected a missing variable, got {other:?}"),
    }
    assert!(problem.soft.is_empty());
}
