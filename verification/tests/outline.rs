use zpack::package::constraint::{Cmp, CmpType, Constraint, Depends, IfThen, NumOf, SpecOption, Value};
use zpack::package::error::{PropagateDefaultError, SolverError};
use zpack::package::outline::{have_distinct_options, PackageOutline, SpecOutline};
use zpack::spec::SpecOptionValue;

fn depends(on: &str) -> Constraint {
    Constraint::Depends(Box::new(Depends::new(on.to_string())))
}

fn outline(
    name: &str,
    constraints: Vec<Constraint>,
    set_defaults: Vec<(&str, Option<SpecOptionValue>)>,
) -> PackageOutline {
    PackageOutline {
        name: name.to_string(),
        constraints,
        set_options: Vec::new(),
        set_defaults: set_defaults.into_iter().map(|(k, v)| (k.to_string(), v)).collect(),
    }
}

fn defaults_of(graph: &SpecOutline, name: &str) -> Vec<(String, Option<SpecOptionValue>)> {
    let found = graph.outlines().iter().find(|o| o.name == name).expect("no such package");
    found.set_defaults.iter().map(|(k, v)| (k.clone(), v.clone())).collect()
}

fn whole(i: i64) -> Option<SpecOptionValue> {
    Some(SpecOptionValue::Int(i))
}

fn same_defaults(
    a: &[(String, Option<SpecOptionValue>)],
    b: &[(String, Option<SpecOptionValue>)],
) -> bool {
    a.len() == b.len()
        && a.iter().zip(b.iter()).all(|(x, y)| {
            x.0 == y.0
                && match (&x.1, &y.1) {
                    (Some(p), Some(q)) => p.same(q),
                    (None, None) => true,
                    _ => false,
                }
        })
}

#[test]
fn graph_is_built_for_known_dependencies() {
    let graph = SpecOutline::new(vec![
        outline("a", vec![depends("b"), depends("c"), depends("b")], vec![]),
        outline("b", vec![depends("c")], vec![]),
        outline("c", vec![], vec![]),
    ]);
    let graph = graph.expect("all dependencies have outlines");
    assert_eq!(graph.outlines().len(), 3);
    assert_eq!(graph.outlines()[0].dependencies(), vec!["b".to_string(), "c".to_string()]);
    assert!(graph.required.is_empty());
}

#[test]
fn graph_fails_on_missing_dependency() {
    let graph = SpecOutline::new(vec![
        outline("a", vec![depends("b"), depends("ghost")], vec![]),
        outline("b", vec![], vec![]),
    ]);
    match graph {
        Err(SolverError::MissingPackage { dep }) => assert_eq!(dep, "ghost"),
        _ => panic!("expected a missing package"),
    }
}

#[test]
fn dependencies_are_found_below_every_combinator() {
    let nested = Constraint::NumOf(Box::new(NumOf {
        of: vec![
            Constraint::IfThen(Box::new(IfThen {
                cond: Constraint::Cmp(Box::new(Cmp {
                    lhs: Constraint::SpecOption(Box::new(SpecOption {
                        package_name: "mpi".to_string(),
                        option_name: "ompi".to_string(),
                    })),
                    rhs: Constraint::Value(Box::new(Value { value: SpecOptionValue::Bool(true) })),
                    op: CmpType::Equal,
                })),
                then: depends("openmpi"),
            })),
            Constraint::Cmp(Box::new(Cmp {
                lhs: depends("mpich"),
                rhs: depends("openmpi"),
                op: CmpType::Equal,
            })),
        ],
    }));
    assert_eq!(
        nested.extract_dependencies(),
        vec!["openmpi".to_string(), "mpich".to_string()]
    );
    let refs = nested.extract_spec_options();
    assert_eq!(refs.len(), 1);
    assert_eq!(refs[0].0, "mpi");
    assert_eq!(refs[0].1, "ompi");
    assert_eq!(
        nested.to_text(),
        "NumOf( If( [ Package 'mpi' -> Option 'ompi' ] == [ true ] ) Then [ Depends( openmpi ) ], [ Depends( mpich ) ] == [ Depends( openmpi ) ],  )"
    );
}

#[test]
fn defaults_reach_direct_and_indirect_successors() {
    let mut graph = SpecOutline::new(vec![
        outline("a", vec![depends("b")], vec![("static", Some(SpecOptionValue::Bool(true)))]),
        outline("b", vec![depends("c")], vec![("fabrics", Some(SpecOptionValue::Str("auto".into())))]),
        outline("c", vec![], vec![]),
    ])
    .unwrap();
    graph.propagate_defaults().expect("no conflict");
    let b = defaults_of(&graph, "b");
    assert_eq!(b.len(), 2);
    assert_eq!(b[0].0, "fabrics");
    assert_eq!(b[1].0, "static");
    let c = defaults_of(&graph, "c");
    assert_eq!(c.len(), 2);
    assert!(c.iter().any(|(k, v)| k == "static" && matches!(v, Some(SpecOptionValue::Bool(true)))));
    assert!(c.iter().any(|(k, _)| k == "fabrics"));
}

#[test]
fn default_conflict_names_both_setters() {
    let mut graph = SpecOutline::new(vec![
        outline("a", vec![depends("b"), depends("c")], vec![("opt", whole(1))]),
        outline("b", vec![depends("d")], vec![("opt", whole(1))]),
        outline("c", vec![depends("d")], vec![("opt", whole(2))]),
        outline("d", vec![], vec![]),
    ])
    .unwrap();
    match graph.propagate_defaults() {
        Err(PropagateDefaultError::Conflict {
            package_name,
            default_name,
            first_setter,
            first_value,
            conflict_setter,
            conflict_value,
        }) => {
            assert_eq!(package_name, "d");
            assert_eq!(default_name, "opt");
            let mut setters = vec![first_setter, conflict_setter];
            setters.sort();
            assert_eq!(setters, vec!["b".to_string(), "c".to_string()]);
            let mut values = vec![first_value.to_text(), conflict_value.to_text()];
            values.sort();
            assert_eq!(values, vec!["1".to_string(), "2".to_string()]);
        }
        other => panic!("expected a conflict, got {other:?}"),
    }
}

#[test]
fn default_conflict_through_inherited_values_names_the_origin() {
    let mut graph = SpecOutline::new(vec![
        outline("a", vec![depends("c")], vec![("opt", whole(1))]),
        outline("b", vec![depends("d")], vec![("opt", whole(2))]),
        outline("c", vec![depends("e")], vec![]),
        outline("d", vec![depends("e")], vec![]),
        outline("e", vec![], vec![]),
    ])
    .unwrap();
    match graph.propagate_defaults() {
        Err(PropagateDefaultError::Conflict { package_name, first_setter, conflict_setter, .. }) => {
            assert_eq!(package_name, "e");
            let mut setters = vec![first_setter, conflict_setter];
            setters.sort();
            assert_eq!(setters, vec!["a".to_string(), "b".to_string()]);
        }
        other => panic!("expected a conflict, got {other:?}"),
    }
}

#[test]
fn cycle_stops_propagation() {
    let mut graph = SpecOutline::new(vec![
        outline("a", vec![depends("b")], vec![("opt", whole(1))]),
        outline("b", vec![depends("a")], vec![]),
    ])
    .unwrap();
    assert!(matches!(graph.propagate_defaults(), Err(PropagateDefaultError::Cycle(_))));
    assert!(defaults_of(&graph, "b").is_empty());
}

#[test]
fn clearing_default_removes_what_the_successor_holds() {
    let mut graph = SpecOutline::new(vec![
        outline("a", vec![depends("b")], vec![("opt", None), ("other", None)]),
        outline("b", vec![], vec![("opt", whole(5))]),
    ])
    .unwrap();
    graph.propagate_defaults().unwrap();
    assert!(defaults_of(&graph, "b").is_empty());
    assert_eq!(defaults_of(&graph, "a").len(), 2);
}

#[test]
fn own_default_is_kept_against_an_inherited_one() {
    let mut graph = SpecOutline::new(vec![
        outline("a", vec![depends("b")], vec![("opt", whole(1))]),
        outline("b", vec![], vec![("opt", whole(2))]),
    ])
    .unwrap();
    graph.propagate_defaults().unwrap();
    let b = defaults_of(&graph, "b");
    assert_eq!(b.len(), 1);
    assert!(matches!(b[0].1, Some(SpecOptionValue::Int(2))));
}

#[test]
fn propagation_twice_changes_nothing_more() {
    let mut graph = SpecOutline::new(vec![
        outline("a", vec![depends("b"), depends("c")], vec![("x", whole(1)), ("y", whole(7))]),
        outline("b", vec![depends("c")], vec![("z", Some(SpecOptionValue::Bool(false)))]),
        outline("c", vec![], vec![("x", whole(3))]),
    ])
    .unwrap();
    graph.propagate_defaults().unwrap();
    let once: Vec<_> = ["a", "b", "c"].iter().map(|n| defaults_of(&graph, n)).collect();
    graph.propagate_defaults().unwrap();
    let twice: Vec<_> = ["a", "b", "c"].iter().map(|n| defaults_of(&graph, n)).collect();
    for (x, y) in once.iter().zip(twice.iter()) {
        assert!(same_defaults(x, y));
    }
    assert!(once.iter().flatten().all(|(_, v)| v.is_some()));
}

#[test]
fn options_given_twice_are_found() {
    let plain = outline("a", vec![], vec![("x", whole(1)), ("y", None)]);
    assert!(plain.has_distinct_options());
    let twice = outline("a", vec![], vec![("x", whole(1)), ("y", None), ("x", whole(2))]);
    assert!(!twice.has_distinct_options());
    let mut fixed = outline("a", vec![], vec![]);
    fixed.set_options.push(("x".to_string(), SpecOptionValue::Int(1)));
    fixed.set_options.push(("y".to_string(), SpecOptionValue::Int(1)));
    assert!(fixed.has_distinct_options());
    fixed.set_options.push(("y".to_string(), SpecOptionValue::Int(2)));
    assert!(!fixed.has_distinct_options());
    assert!(have_distinct_options(&vec![plain]));
    assert!(!have_distinct_options(&vec![outline("b", vec![], vec![]), fixed]));
}

#[test]
fn take_away_that_is_met_is_gone() {
    let mut graph = SpecOutline::new(vec![
        outline("a", vec![depends("b")], vec![("opt", whole(1))]),
        outline("b", vec![], vec![("opt", None), ("own", None)]),
    ])
    .unwrap();
    graph.propagate_defaults().unwrap();
    let b = defaults_of(&graph, "b");
    assert_eq!(b.len(), 1);
    assert_eq!(b[0].0, "own");
    assert!(b[0].1.is_none());
    assert_eq!(defaults_of(&graph, "a").len(), 1);
}

#[test]
fn second_pass_over_a_result_at_rest_changes_nothing() {
    let mut graph = SpecOutline::new(vec![
        outline("a", vec![depends("b")], vec![("gone", None), ("kept", whole(4))]),
        outline("b", vec![], vec![("gone", whole(5))]),
    ])
    .unwrap();
    graph.propagate_defaults().unwrap();
    let once: Vec<_> = ["a", "b"].iter().map(|n| defaults_of(&graph, n)).collect();
    assert_eq!(once[1].len(), 1);
    assert_eq!(once[1][0].0, "kept");
    graph.propagate_defaults().unwrap();
    let twice: Vec<_> = ["a", "b"].iter().map(|n| defaults_of(&graph, n)).collect();
    for (x, y) in once.iter().zip(twice.iter()) {
        assert!(same_defaults(x, y));
    }
}
