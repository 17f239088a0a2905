use zpack::package::constraint::typing::{solve_facts, Fact};
use zpack::package::constraint::{
    Cmp, CmpType, Constraint, ConstraintType, Depends, IfThen, Maximize, NumOf, SpecOption, Value,
};
use zpack::package::error::{InvalidReason, SolverError};
use zpack::package::outline::{PackageOutline, SpecOutline};
use zpack::package::registry::WipRegistry;
use zpack::package::version::Version;
use zpack::solver::problem::Problem;
use zpack::solver::solve::Scalar;
use zpack::solver::term::{Sort, Term};
use zpack::spec::{SpecOptionType, SpecOptionValue};

fn option(package: &str, name: &str) -> Constraint {
    Constraint::SpecOption(Box::new(SpecOption {
        package_name: package.to_string(),
        option_name: name.to_string(),
    }))
}

fn value(v: SpecOptionValue) -> Constraint {
    Constraint::Value(Box::new(Value { value: v }))
}

fn cmp(lhs: Constraint, op: CmpType, rhs: Constraint) -> Constraint {
    Constraint::Cmp(Box::new(Cmp { lhs, rhs, op }))
}

#[test]
fn registry_options_are_entered_once() {
    let mut registry = WipRegistry::new();
    assert_eq!(registry.lookup_option("a", None), None);
    registry.insert_option_type("a", None, SpecOptionType::Bool).unwrap();
    registry.insert_option("a", Some("x"), SpecOptionType::Int, None).unwrap();
    registry.insert_option_type("a", Some("x"), SpecOptionType::Int).unwrap();
    assert_eq!(registry.num_options(), 2);
    assert_eq!(registry.lookup_option("a", None), Some(0));
    assert_eq!(registry.lookup_option("a", Some("x")), Some(1));
    assert_eq!(registry.lookup_option("a", Some("y")), None);
    assert_eq!(registry.option_type(1), SpecOptionType::Int);
    match registry.insert_option_type("a", Some("x"), SpecOptionType::Str) {
        Err(SolverError::DuplicateOption(name)) => assert_eq!(name, "a/x"),
        other => panic!("expected a duplicate option, got {other:?}"),
    }
    assert_eq!(
        registry.spec_option_names(),
        vec![("a".to_string(), None), ("a".to_string(), Some("x".to_string()))]
    );
}

#[test]
fn registry_variable_is_set_once() {
    let mut registry = WipRegistry::new();
    registry.insert_option_type("a", Some("x"), SpecOptionType::Int).unwrap();
    assert!(registry.option_variable(0).is_none());
    registry.set_option_value("a", Some("x"), "a/x".to_string()).unwrap();
    assert_eq!(registry.option_variable(0), Some(&"a/x".to_string()));
    assert!(matches!(
        registry.set_option_value("a", Some("x"), "other".to_string()),
        Err(SolverError::VariableAlreadySet { .. })
    ));
    assert!(matches!(
        registry.set_option_value("a", Some("y"), "a/y".to_string()),
        Err(SolverError::MissingVariable { .. })
    ));
    assert!(matches!(
        registry.set_option_value("b", None, "b".to_string()),
        Err(SolverError::MissingPackage { .. })
    ));
    assert_eq!(registry.spec_options(), vec![(SpecOptionType::Int, Some("a/x".to_string()))]);
}

#[test]
fn registry_labels_find_their_descriptions() {
    let mut registry = WipRegistry::new();
    assert_eq!(registry.new_constraint_id("first".to_string()), "0");
    assert_eq!(registry.new_constraint_id("second".to_string()), "1");
    for _ in 2..11 {
        registry.new_constraint_id("more".to_string());
    }
    assert_eq!(registry.new_constraint_id("twelfth".to_string()), "11");
    assert_eq!(registry.constraint_description("0"), Some(&"first".to_string()));
    assert_eq!(registry.constraint_description("|1|"), Some(&"second".to_string()));
    assert_eq!(registry.constraint_description("11"), Some(&"twelfth".to_string()));
    assert_eq!(registry.constraint_description("12"), None);
    assert_eq!(registry.constraint_description("01"), None);
    assert_eq!(registry.constraint_description("x"), None);
    let built = registry.build().unwrap();
    assert_eq!(
        built.explain_core(&vec!["|11|".to_string(), "0".to_string(), "who".to_string()]),
        vec!["twelfth".to_string(), "first".to_string(), "who".to_string()]
    );
}

#[test]
fn facts_of_a_constraint_are_read_off_the_tree() {
    let c = cmp(
        Constraint::NumOf(Box::new(NumOf {
            of: vec![
                option("a", "flag"),
                Constraint::IfThen(Box::new(IfThen {
                    cond: option("a", "on"),
                    then: cmp(option("a", "x"), CmpType::Less, option("b", "y")),
                })),
            ],
        })),
        CmpType::Equal,
        option("a", "count"),
    );
    let facts = c.extract_facts();
    assert_eq!(facts.len(), 4);
    assert!(matches!(&facts[0], Fact::Is { option: Some(o), dtype: SpecOptionType::Bool, .. } if o == "flag"));
    assert!(matches!(&facts[1], Fact::Same { option, other_option, .. } if option == "x" && other_option == "y"));
    assert!(matches!(&facts[2], Fact::Is { option: Some(o), dtype: SpecOptionType::Bool, .. } if o == "on"));
    assert!(matches!(&facts[3], Fact::Is { option: Some(o), dtype: SpecOptionType::Int, .. } if o == "count"));
}

#[test]
fn types_do_not_depend_on_the_order_of_the_facts() {
    let same = |a: &str, b: &str| Fact::Same {
        package: "p".to_string(),
        option: a.to_string(),
        other_package: "p".to_string(),
        other_option: b.to_string(),
    };
    let is = |a: &str, t: SpecOptionType| Fact::Is {
        package: "p".to_string(),
        option: Some(a.to_string()),
        dtype: t,
    };
    let orders: Vec<Vec<Fact>> = vec![
        vec![same("a", "b"), same("b", "c"), same("c", "d"), is("d", SpecOptionType::Str)],
        vec![is("d", SpecOptionType::Str), same("c", "d"), same("b", "c"), same("a", "b")],
        vec![same("b", "c"), is("d", SpecOptionType::Str), same("a", "b"), same("c", "d")],
    ];
    for facts in &orders {
        let mut registry = WipRegistry::new();
        solve_facts(facts, &mut registry).expect("the facts agree");
        for name in ["a", "b", "c", "d"] {
            let at = registry.lookup_option("p", Some(name)).expect("typed");
            assert_eq!(registry.option_type(at), SpecOptionType::Str);
        }
    }
    let mut registry = WipRegistry::new();
    assert!(matches!(
        solve_facts(&vec![same("a", "b"), is("a", SpecOptionType::Int), is("b", SpecOptionType::Bool)], &mut registry),
        Err(SolverError::IncorrectConstraintType {
            expected: ConstraintType::Value(_),
            received: ConstraintType::Value(_)
        })
    ));
    let mut registry = WipRegistry::new();
    assert!(matches!(
        solve_facts(&vec![same("a", "b")], &mut registry),
        Err(SolverError::UnknownType { .. })
    ));
}

#[test]
fn clause_of_a_count_is_a_sum() {
    let mut registry = WipRegistry::new();
    registry.insert_option("a", None, SpecOptionType::Bool, Some("a".to_string())).unwrap();
    registry.insert_option("b", None, SpecOptionType::Bool, Some("b".to_string())).unwrap();
    let built = registry.build().unwrap();
    let depends = |n: &str| Constraint::Depends(Box::new(Depends::new(n.to_string())));
    let count = Constraint::NumOf(Box::new(NumOf { of: vec![depends("a"), depends("b")] }));
    let term = count.to_clause(&built).unwrap();
    assert_eq!(term.sort(), Some(Sort::Int));
    match term {
        Term::Add(sum, last) => {
            assert!(matches!(*last, Term::Ite(_, _, _)));
            assert!(matches!(*sum, Term::Add(_, _)));
        }
        other => panic!("expected a sum, got {other:?}"),
    }
    assert!(matches!(
        depends("ghost").to_clause(&built),
        Err(SolverError::MissingPackage { .. })
    ));
    assert!(matches!(
        option("a", "x").to_clause(&built),
        Err(SolverError::MissingVariable { .. })
    ));
    assert!(matches!(
        Constraint::Maximize(Box::new(Maximize { item: depends("a") })).to_clause(&built),
        Err(SolverError::InvalidConstraint(InvalidReason::ObjectiveAsClause))
    ));
    assert!(matches!(
        cmp(depends("a"), CmpType::Equal, value(SpecOptionValue::Int(1))).to_clause(&built),
        Err(SolverError::IncorrectSolverType { expected: Sort::Bool, received: Sort::Int })
    ));
}

#[test]
fn clause_needs_a_variable() {
    let mut registry = WipRegistry::new();
    registry.insert_option_type("a", None, SpecOptionType::Bool).unwrap();
    let built = registry.build().unwrap();
    let depends = Constraint::Depends(Box::new(Depends::new("a".to_string())));
    assert!(matches!(depends.to_clause(&built), Err(SolverError::NoSolverVariable { .. })));
    assert!(matches!(
        built.eval_option("a", None, &vec![None]),
        Err(SolverError::NoSolverVariable { .. })
    ));
    assert!(matches!(
        built.eval_option("a", None, &vec![Some(Scalar::Bool(true))]),
        Ok(SpecOptionValue::Bool(true))
    ));
    assert!(matches!(
        built.eval_option("a", None, &vec![Some(Scalar::Int(1))]),
        Err(SolverError::NoSolverVariable { .. })
    ));
    assert!(matches!(
        built.eval_option("b", None, &vec![]),
        Err(SolverError::MissingPackage { .. })
    ));
}

#[test]
fn scalar_is_decoded_by_type() {
    let mut wip = WipRegistry::new();
    wip.push_version(Version::new("2.0").unwrap());
    wip.push_version(Version::new("1.0").unwrap());
    let built = wip.build().unwrap();
    let decode = |t, s: Scalar| SpecOptionValue::from_scalar(t, &s, &built).map(|v| v.to_text());
    assert_eq!(decode(SpecOptionType::Version, Scalar::Int(0)), Some("1.0".to_string()));
    assert_eq!(decode(SpecOptionType::Version, Scalar::Int(1)), Some("2.0".to_string()));
    assert_eq!(decode(SpecOptionType::Version, Scalar::Int(2)), None);
    assert_eq!(decode(SpecOptionType::Version, Scalar::Int(-1)), None);
    assert_eq!(decode(SpecOptionType::Int, Scalar::Int(-5)), Some("-5".to_string()));
    assert_eq!(decode(SpecOptionType::Str, Scalar::Str("x".into())), Some("x".to_string()));
    assert_eq!(decode(SpecOptionType::Bool, Scalar::Int(1)), None);
    assert_eq!(decode(SpecOptionType::Float, Scalar::Int(1)), None);
}

#[test]
fn values_are_written_in_base_ten() {
    assert_eq!(SpecOptionValue::Int(i64::MIN).to_text(), "-9223372036854775808");
    assert_eq!(SpecOptionValue::Int(0).to_text(), "0");
    assert_eq!(SpecOptionValue::Int(1203).to_text(), "1203");
    assert_eq!(SpecOptionValue::Bool(false).to_text(), "false");
    assert_eq!(SpecOptionValue::Float(4607182418800017408).to_text(), "float#4607182418800017408");
    assert_eq!(SpecOptionValue::Float(1).to_type(), SpecOptionType::Float);
    assert!(SpecOptionValue::Str("a".into()).is_type(SpecOptionType::Str));
    assert!(SpecOptionValue::Str("a".into()).same(&SpecOptionValue::Str("a".into())));
    assert!(!SpecOptionValue::Int(1).same(&SpecOptionValue::Bool(true)));
}

#[test]
fn constraints_of_a_cycle_are_not_added() {
    let depends = |n: &str| Constraint::Depends(Box::new(Depends::new(n.to_string())));
    let outline = |name: &str, on: &str| PackageOutline {
        name: name.to_string(),
        constraints: vec![depends(on)],
        set_options: Vec::new(),
        set_defaults: Vec::new(),
    };
    let graph = SpecOutline::new(vec![outline("a", "b"), outline("b", "a")]).unwrap();
    assert!(matches!(graph.solve(), Err(SolverError::Cycle)));
    let mut problem = Problem::new();
    let mut registry = WipRegistry::new().build().unwrap();
    assert!(matches!(
        graph.add_constraints(&mut problem, &mut registry),
        Err(SolverError::Cycle)
    ));
}

#[test]
fn problem_is_written_down_in_order() {
    let depends = |n: &str| Constraint::Depends(Box::new(Depends::new(n.to_string())));
    let mut graph = SpecOutline::new(vec![
        PackageOutline {
            name: "b".to_string(),
            constraints: vec![],
            set_options: vec![("k".to_string(), SpecOptionValue::Int(3))],
            set_defaults: Vec::new(),
        },
        PackageOutline {
            name: "a".to_string(),
            constraints: vec![depends("b")],
            set_options: Vec::new(),
            set_defaults: Vec::new(),
        },
    ])
    .unwrap();
    graph.required.push("a".to_string());
    let (problem, registry) = graph.gen_spec_solver().unwrap();
    assert_eq!(problem.soft.len(), 2);
    assert!(problem.is_well_posed());
    assert!(matches!(&problem.soft[0], (Term::Not(v), 1) if matches!(&**v, Term::Var(n, Sort::Bool) if n == "b")));
    let labels: Vec<&str> = problem.asserted.iter().map(|(_, l)| l.as_str()).collect();
    assert_eq!(labels, vec!["0", "1", "2"]);
    assert_eq!(
        registry.explain_core(&vec!["0".to_string(), "1".to_string(), "2".to_string()]),
        vec![
            "[ Package 'b' -> Option 'k' ] == [ 3 ]".to_string(),
            "a required explicitly".to_string(),
            "Depends( b )".to_string(),
        ]
    );
    assert_eq!(registry.option_variable(registry.lookup_option("b", Some("k")).unwrap()), Some(&"b/k".to_string()));
    assert_eq!(registry.option_variable(registry.lookup_option("a", None).unwrap()), Some(&"a".to_string()));
}

#[test]
fn plan_is_read_off_the_values() {
    let outline = |name: &str| PackageOutline {
        name: name.to_string(),
        constraints: Vec::new(),
        set_options: Vec::new(),
        set_defaults: Vec::new(),
    };
    let graph = SpecOutline::new(vec![outline("a"), outline("b")]).unwrap();
    let mut registry = WipRegistry::new();
    registry.insert_option_type("a", None, SpecOptionType::Bool).unwrap();
    registry.insert_option_type("b", Some("n"), SpecOptionType::Int).unwrap();
    registry.insert_option_type("a", Some("s"), SpecOptionType::Str).unwrap();
    registry.insert_option_type("b", None, SpecOptionType::Bool).unwrap();
    registry.insert_option_type("a", Some("k"), SpecOptionType::Int).unwrap();
    let built = registry.build().unwrap();
    let values = vec![
        Some(Scalar::Bool(true)),
        Some(Scalar::Int(4)),
        Some(Scalar::Str("x".to_string())),
        Some(Scalar::Bool(false)),
        Some(Scalar::Int(-2)),
    ];
    let plans = graph.decode(&built, &values).unwrap();
    assert_eq!(plans.len(), 2);
    assert_eq!(plans[0].package, "a");
    assert!(plans[0].activated);
    let shown: Vec<(String, String)> =
        plans[0].options.iter().map(|(k, v)| (k.clone(), v.to_text())).collect();
    assert_eq!(shown, vec![("s".to_string(), "x".to_string()), ("k".to_string(), "-2".to_string())]);
    assert_eq!(plans[1].package, "b");
    assert!(!plans[1].activated);
    assert!(plans[1].options.is_empty());

    let mut odd = WipRegistry::new();
    odd.insert_option_type("a", None, SpecOptionType::Int).unwrap();
    odd.insert_option_type("b", None, SpecOptionType::Bool).unwrap();
    let odd = odd.build().unwrap();
    assert!(matches!(
        graph.decode(&odd, &vec![Some(Scalar::Int(1)), Some(Scalar::Bool(true))]),
        Err(SolverError::InvalidModel { .. })
    ));
    assert!(matches!(
        graph.decode(&built, &vec![Some(Scalar::Bool(true)), None, None, None, None]),
        Err(SolverError::NoSolverVariable { .. })
    ));
}

#[test]
fn version_comparison_goes_by_the_numbers() {
    let mut registry = WipRegistry::new();
    for text in ["1.0", "1.5", "2.0"] {
        registry.push_version(Version::new(text).unwrap());
    }
    let built = registry.build().unwrap();
    let var = Term::Var("p/v".to_string(), Sort::Int);
    let less = Version::new("1.5").unwrap().cmp_dynamic(CmpType::Less, &var, &built).unwrap();
    assert!(matches!(&less, Term::Lt(_, n) if matches!(&**n, Term::Index(1))));
    let pattern = Version::new("1.*").unwrap();
    let matched = pattern.cmp_eq_dynamic(&var, &built).unwrap();
    assert_eq!(matched.sort(), Some(Sort::Bool));
    assert!(matches!(&matched, Term::And(_, choices) if matches!(&**choices, Term::Or(_, _))));
    assert!(matches!(
        pattern.cmp_dynamic(CmpType::NotEqual, &var, &built),
        Ok(Term::Not(_))
    ));
    assert!(matches!(
        pattern.cmp_dynamic(CmpType::Greater, &var, &built),
        Err(SolverError::InvalidConstraint(InvalidReason::OrderedPattern))
    ));
    let unknown = Version::new("9.9").unwrap().cmp_dynamic(CmpType::Equal, &var, &built).unwrap();
    assert!(matches!(&unknown, Term::Eq(_, n) if matches!(&**n, Term::Index(u64::MAX))));
}
