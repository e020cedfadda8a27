use std::sync::Arc;

use rand::Rng;

use slac::definition::{Dependency, Group, Service};
use slac::probability::{calc_minimum_unit, Summand};
use slac::term::{AtomRegistry, DumpTerm, MultiOp, Probability, Term, UnaryOp};

fn value(p: Probability) -> f64 {
    let x = f64::from_bits(p.bits);
    if p.complement {
        1.0 - x
    } else {
        x
    }
}

fn evaluate(plan: &[Summand]) -> f64 {
    let mut sum = 0.0;
    for summand in plan {
        let mut product = 1.0;
        for factor in &summand.factors {
            match factor {
                Term::Unary { atom, op } => {
                    let p = value(atom.probability());
                    product *= if *op == UnaryOp::Not { 1.0 - p } else { p };
                }
                _ => panic!("a factor is a literal"),
            }
        }
        if summand.positive {
            sum += product;
        } else {
            sum -= product;
        }
    }
    sum
}

fn atom(registry: &mut AtomRegistry, name: &str, p: f64) -> Term {
    Term::atom(registry.new_atom(name.to_string(), Probability::from_bits(p.to_bits())))
}

fn negated_atom(registry: &mut AtomRegistry, name: &str, p: f64) -> Term {
    let mut t = atom(registry, name, p);
    t.not();
    t
}

fn atom_name(t: &Term) -> (String, UnaryOp) {
    match t {
        Term::Unary { atom, op } => (atom.name().to_string(), *op),
        _ => panic!("not a literal"),
    }
}

#[test]
fn test_calc() {
    fn test_calc_impl(infra_sla: f64, connection_sla: f64) -> f64 {
        let sla = |x: f64| Probability::from_bits(x.to_bits());
        let infra_a = Service::known_sla("infra_a", sla(infra_sla));
        let infra_b = Service::known_sla("infra_b", sla(infra_sla));
        let infra_c = Service::known_sla("infra_c", sla(infra_sla));
        let infra_d = Service::known_sla("infra_d", sla(infra_sla));
        let infra_e = Service::known_sla("infra_e", sla(infra_sla));

        let connection_a = Service::known_sla("connection_a", sla(connection_sla));
        let connection_b = Service::known_sla("connection_b", sla(connection_sla));
        let connection_c = Service::known_sla("connection_c", sla(connection_sla));
        let connection_d = Service::known_sla("connection_d", sla(connection_sla));

        let svc_c = Service::dependencies(vec![Dependency::Service(infra_b)]);

        let svc_d = Service::dependencies(vec![Dependency::Service(infra_c.clone())]);
        let svc_e = Service::dependencies(vec![Dependency::Service(infra_c.clone())]);
        let svc_b = Service::dependencies(vec![Dependency::Service(infra_c)]);

        let svc_g = Service::dependencies(vec![Dependency::Service(infra_e)]);

        let group_a = Group::new(vec![svc_d, svc_e, svc_c.clone(), svc_g], 2);

        let svc_a = Service::dependencies(vec![
            Dependency::Service(infra_a),
            Dependency::Service(connection_a),
            Dependency::Group(group_a),
            Dependency::Service(connection_b),
            Dependency::Service(svc_c),
        ]);

        let svc_f = Service::dependencies(vec![
            Dependency::Service(infra_d),
            Dependency::Service(connection_c),
            Dependency::Service(svc_a),
            Dependency::Service(connection_d),
            Dependency::Service(svc_b),
        ]);

        let mut atom_registry = AtomRegistry::new();
        let term = svc_f.dump_term(&mut atom_registry);

        evaluate(&term.calc())
    }
    fn test_calc_expected(infra_sla: f64, connection_sla: f64) -> f64 {
        1f64 - infra_sla.powi(4) * connection_sla.powi(4)
    }

    let mut rng = rand::thread_rng();
    for _ in 0..100 {
        let infra_sla: f64 = rng.gen();
        let connection_sla: f64 = rng.gen();

        let expected = test_calc_expected(infra_sla, connection_sla);
        let got = test_calc_impl(infra_sla, connection_sla);
        assert!((expected - got).abs() <= 0.0000001f64, "{} {}", expected, got);
    }
}

#[test]
fn registry_keeps_first_probability() {
    let mut registry = AtomRegistry::new();
    let first = registry.new_atom("x".to_string(), Probability::from_bits(0.5f64.to_bits()));
    let second = registry.new_atom("x".to_string(), Probability::from_bits(0.9f64.to_bits()));
    assert_eq!(first.name(), "x");
    assert_eq!(second.name(), "x");
    assert_eq!(value(second.probability()), 0.5);
    assert_eq!(first.probability(), second.probability());
    let other = registry.new_atom("y".to_string(), Probability::from_bits(0.9f64.to_bits()));
    assert_eq!(value(other.probability()), 0.9);
}

#[test]
fn independent_union() {
    let mut registry = AtomRegistry::new();
    let a = atom(&mut registry, "a", 0.5);
    let b = atom(&mut registry, "b", 0.9);
    let got = evaluate(&Term::union(vec![a, b]).calc());
    assert!((got - 0.95).abs() < 1e-12, "{}", got);
    assert!((got - (0.5 + 0.9 - 0.5 * 0.9)).abs() < 1e-12);
}

#[test]
fn independent_intersect() {
    let mut registry = AtomRegistry::new();
    let a = atom(&mut registry, "a", 0.5);
    let b = atom(&mut registry, "b", 0.9);
    let plan = Term::intersect(vec![a, b]).calc();
    assert_eq!(plan.len(), 1);
    assert_eq!(plan[0].factors.len(), 2);
    let got = evaluate(&plan);
    assert!((got - 0.45).abs() < 1e-12, "{}", got);
}

#[test]
fn self_overlap_is_not_squared() {
    let mut registry = AtomRegistry::new();
    let union = |registry: &mut AtomRegistry| {
        let a = atom(registry, "a", 0.5);
        let b = atom(registry, "b", 0.9);
        Term::union(vec![a, b])
    };
    let single = evaluate(&union(&mut registry).calc());
    let left = union(&mut registry);
    let right = union(&mut registry);
    let both = evaluate(&Term::intersect(vec![left, right]).calc());
    assert!((both - single).abs() < 1e-12, "{} {}", both, single);
    assert!((both - single * single).abs() > 1e-3);
}

#[test]
fn flatten_merges_nested_unions() {
    let mut registry = AtomRegistry::new();
    let a = atom(&mut registry, "a", 0.1);
    let b = atom(&mut registry, "b", 0.2);
    let c = atom(&mut registry, "c", 0.3);
    let flat = Term::union(vec![Term::union(vec![a, b]), c]).flat();
    match flat {
        Term::Multiple { terms, op } => {
            assert_eq!(op, MultiOp::Union);
            let names: Vec<String> = terms.iter().map(|t| atom_name(t).0).collect();
            assert_eq!(names, vec!["a", "b", "c"]);
        }
        _ => panic!("a union is expected"),
    }
}

#[test]
fn flatten_collapses_singletons() {
    let mut registry = AtomRegistry::new();
    let a = atom(&mut registry, "a", 0.1);
    let b = atom(&mut registry, "b", 0.2);
    let nested = Term::intersect(vec![Term::union(vec![Term::intersect(vec![a]), b])]);
    match nested.flat() {
        Term::Multiple { terms, op } => {
            assert_eq!(op, MultiOp::Union);
            assert_eq!(atom_name(&terms[0]), ("a".to_string(), UnaryOp::Identity));
            assert_eq!(atom_name(&terms[1]), ("b".to_string(), UnaryOp::Identity));
        }
        _ => panic!("a union is expected"),
    }
}

#[test]
fn de_morgan_on_intersection() {
    let mut registry = AtomRegistry::new();
    let a = atom(&mut registry, "a", 0.1);
    let b = atom(&mut registry, "b", 0.2);
    let mut t = Term::intersect(vec![a, b]);
    t.not();
    match t {
        Term::Multiple { terms, op } => {
            assert_eq!(op, MultiOp::Union);
            assert_eq!(atom_name(&terms[0]), ("a".to_string(), UnaryOp::Not));
            assert_eq!(atom_name(&terms[1]), ("b".to_string(), UnaryOp::Not));
        }
        _ => panic!("a union is expected"),
    }
}

#[test]
fn double_negation_is_identity() {
    let mut registry = AtomRegistry::new();
    let mut t = atom(&mut registry, "a", 0.1);
    t.not();
    assert_eq!(atom_name(&t), ("a".to_string(), UnaryOp::Not));
    t.not();
    assert_eq!(atom_name(&t), ("a".to_string(), UnaryOp::Identity));
    let mut e = Term::Empty;
    e.not();
    assert!(e.is_none());
}

#[test]
fn vacuous_absorption() {
    let mut registry = AtomRegistry::new();
    let a = atom(&mut registry, "a", 0.1);
    assert!(Term::intersect(vec![a, Term::Empty]).remove_none().is_none());
    let a = atom(&mut registry, "a", 0.1);
    match Term::union(vec![a, Term::Empty]).remove_none() {
        Some(t) => assert_eq!(atom_name(&t), ("a".to_string(), UnaryOp::Identity)),
        None => panic!("the atom remains"),
    }
    let a = atom(&mut registry, "a", 0.1);
    let b = atom(&mut registry, "b", 0.2);
    match Term::union(vec![Term::Empty, a, Term::intersect(vec![b, Term::Empty])]).remove_none() {
        Some(t) => assert_eq!(atom_name(&t), ("a".to_string(), UnaryOp::Identity)),
        None => panic!("the atom remains"),
    }
    let a = atom(&mut registry, "a", 0.1);
    let b = atom(&mut registry, "b", 0.2);
    match Term::union(vec![a, Term::Empty, b]).remove_none() {
        Some(Term::Multiple { terms, op }) => {
            assert_eq!(op, MultiOp::Union);
            assert_eq!(terms.len(), 2);
            assert_eq!(atom_name(&terms[0]), ("a".to_string(), UnaryOp::Identity));
            assert_eq!(atom_name(&terms[1]), ("b".to_string(), UnaryOp::Identity));
        }
        _ => panic!("a union of both atoms remains"),
    }
    assert!(Term::union(vec![Term::Empty, Term::Empty]).remove_none().is_none());
    assert!(Term::Empty.remove_none().is_none());
}

#[test]
fn contradiction_is_impossible() {
    let mut registry = AtomRegistry::new();
    let a = atom(&mut registry, "a", 0.3);
    let not_a = negated_atom(&mut registry, "a", 0.3);
    let plan = Term::intersect(vec![a, not_a]).calc();
    assert!(plan.is_empty());
    assert_eq!(evaluate(&plan), 0.0);
}

#[test]
fn minimum_unit_counts_each_atom_once() {
    let mut registry = AtomRegistry::new();
    let children = vec![atom(&mut registry, "a", 0.3), atom(&mut registry, "a", 0.3), negated_atom(&mut registry, "b", 0.6)];
    let plan = calc_minimum_unit(&children).unwrap();
    assert_eq!(plan.len(), 1);
    assert_eq!(plan[0].factors.len(), 2);
    assert!((evaluate(&plan) - 0.3 * 0.4).abs() < 1e-12);
}

#[test]
fn minimum_unit_declines_compound_children() {
    let mut registry = AtomRegistry::new();
    let a = atom(&mut registry, "a", 0.3);
    let b = atom(&mut registry, "b", 0.3);
    let children = vec![atom(&mut registry, "c", 0.3), Term::union(vec![a, b])];
    assert!(calc_minimum_unit(&children).is_none());
}

#[test]
fn negated_union_probability() {
    let mut registry = AtomRegistry::new();
    let a = atom(&mut registry, "a", 0.2);
    let b = atom(&mut registry, "b", 0.7);
    let mut t = Term::union(vec![a, b]);
    t.not();
    let got = evaluate(&t.calc());
    assert!((got - 0.8 * 0.3).abs() < 1e-12, "{}", got);
}

fn quorum_brute_force(q: f64, infra: f64, connection: f64) -> f64 {
    // atoms: four group members, two infrastructure, two connections
    let p = [q, q, q, q, infra, infra, connection, connection];
    let mut total = 0.0;
    for mask in 0u32..256 {
        let fails = |i: usize| mask & (1 << i) != 0;
        let mut weight = 1.0;
        for (i, pi) in p.iter().enumerate() {
            weight *= if fails(i) { *pi } else { 1.0 - *pi };
        }
        let up = (0..4).filter(|i| !fails(*i)).count();
        let front_fails = fails(4) || fails(6) || up < 2;
        let system_fails = fails(5) || fails(7) || front_fails;
        if system_fails {
            total += weight;
        }
    }
    total
}

#[test]
fn quorum_matches_truth_table() {
    for &(q, infra, connection) in &[(0.1, 0.01, 0.02), (0.5, 0.3, 0.2), (0.9, 0.5, 0.7)] {
        let sla = |x: f64| Probability::from_bits(x.to_bits());
        let members: Vec<Arc<Service>> = (0..4)
            .map(|i| Service::known_sla(&format!("member_{}", i), sla(1.0 - q)))
            .collect();
        let group = Group::new(members, 2);
        let front = Service::dependencies(vec![
            Dependency::Service(Service::known_sla("infra_front", sla(1.0 - infra))),
            Dependency::Service(Service::known_sla("connection_front", sla(1.0 - connection))),
            Dependency::Group(group),
        ]);
        let top = Service::dependencies(vec![
            Dependency::Service(Service::known_sla("infra_top", sla(1.0 - infra))),
            Dependency::Service(Service::known_sla("connection_top", sla(1.0 - connection))),
            Dependency::Service(front),
        ]);
        let mut registry = AtomRegistry::new();
        let got = evaluate(&top.dump_term(&mut registry).calc());
        let expected = quorum_brute_force(q, infra, connection);
        assert!((got - expected).abs() <= 1e-7, "{} {}", got, expected);
    }
}

#[test]
fn empty_dependencies_never_fail() {
    let mut registry = AtomRegistry::new();
    let svc = Service::dependencies(vec![]);
    assert!(svc.dump_term(&mut registry).is_none());
}

#[test]
fn group_without_quorum_never_fails() {
    let sla = Probability::from_bits(0.5f64.to_bits());
    let group = Group::new(vec![Service::known_sla("a", sla), Service::known_sla("b", sla)], 0);
    let mut registry = AtomRegistry::new();
    assert!(group.dump_term(&mut registry).is_none());
}

#[test]
fn group_failure_sets() {
    let sla = Probability::from_bits(0.9f64.to_bits());
    let group = Group::new(
        vec![Service::known_sla("a", sla), Service::known_sla("b", sla), Service::known_sla("c", sla)],
        2,
    );
    let mut registry = AtomRegistry::new();
    match group.dump_term(&mut registry) {
        Term::Multiple { terms, op } => {
            assert_eq!(op, MultiOp::Union);
            let sets: Vec<Vec<String>> = terms
                .iter()
                .map(|t| match t {
                    Term::Multiple { terms, op: MultiOp::Intersect } => {
                        terms.iter().map(|x| atom_name(x).0).collect()
                    }
                    _ => panic!("an intersection is expected"),
                })
                .collect();
            assert_eq!(
                sets,
                vec![vec!["a", "b"], vec!["a", "c"], vec!["b", "c"], vec!["a", "b", "c"]]
            );
        }
        _ => panic!("a union is expected"),
    }
    let p = value(registry.new_atom("a".to_string(), Probability::from_bits(0.0f64.to_bits())).probability());
    assert!((p - 0.1).abs() < 1e-12);
}

#[test]
fn drawing_nodes_and_edges() {
    let mut registry = AtomRegistry::new();
    let a = atom(&mut registry, "a", 0.1);
    let not_b = negated_atom(&mut registry, "b", 0.2);
    let c = atom(&mut registry, "c", 0.3);
    let t = Term::union(vec![Term::intersect(vec![a, not_b]), c, Term::Empty]);
    let nodes = t.nodes();
    let labels: Vec<&str> = nodes.iter().map(|n| n.content()).collect();
    assert_eq!(labels, vec!["Union", "Intersect", "a", "Not", "b", "c", "None"]);
    for (i, n) in nodes.iter().enumerate() {
        assert_eq!(n.id(), i);
    }
    assert_eq!(t.size(), 7);
    let edges: Vec<(usize, usize, String, String)> = t
        .edges()
        .iter()
        .map(|e| {
            (
                e.source().id(),
                e.target().id(),
                e.source().content().to_string(),
                e.target().content().to_string(),
            )
        })
        .collect();
    let expected: Vec<(usize, usize, String, String)> = vec![
        (0, 1, "Union".into(), "Intersect".into()),
        (1, 2, "Intersect".into(), "a".into()),
        (1, 3, "Intersect".into(), "Not".into()),
        (3, 4, "Not".into(), "b".into()),
        (0, 5, "Union".into(), "c".into()),
        (0, 6, "Union".into(), "None".into()),
    ];
    assert_eq!(edges, expected);
}

#[test]
fn evaluable_terms() {
    let mut registry = AtomRegistry::new();
    let a = atom(&mut registry, "a", 0.1);
    assert!(a.is_evaluable());
    assert!(!Term::Empty.is_evaluable());
    assert!(!Term::union(vec![]).is_evaluable());
    let b = atom(&mut registry, "b", 0.1);
    assert!(!Term::intersect(vec![b, Term::Empty]).is_evaluable());
    let b = atom(&mut registry, "b", 0.1);
    let c = atom(&mut registry, "c", 0.1);
    assert!(Term::intersect(vec![b, c]).is_evaluable());
}

#[test]
fn copies_are_equal_in_shape() {
    let mut registry = AtomRegistry::new();
    let a = atom(&mut registry, "a", 0.25);
    let b = negated_atom(&mut registry, "b", 0.5);
    let t = Term::union(vec![a, b]);
    let u = t.copy();
    assert_eq!(evaluate(&t.calc()), evaluate(&u.calc()));
    let labels: Vec<String> = u.nodes().iter().map(|n| n.content().to_string()).collect();
    assert_eq!(labels, vec!["Union", "a", "Not", "b"]);
}

fn dump_through_trait<T: DumpTerm>(t: &T, registry: &mut AtomRegistry) -> Term {
    DumpTerm::dump_term(t, registry)
}

#[test]
fn dump_term_through_the_trait() {
    let sla = Probability::from_bits(0.75f64.to_bits());
    let a = Service::known_sla("a", sla);
    let b = Service::known_sla("b", sla);
    let group = Group::new(vec![a.clone(), b], 1);
    let svc = Service::dependencies(vec![Dependency::Service(a), Dependency::Group(group.clone())]);
    let mut registry = AtomRegistry::new();
    let from_service = dump_through_trait(&*svc, &mut registry);
    let from_group = dump_through_trait(&*group, &mut registry);
    // a fails, or both a and b fail: since a is shared, that is a failing
    let expected = 0.25;
    assert!((evaluate(&from_service.calc()) - expected).abs() < 1e-12);
    assert!((evaluate(&from_group.calc()) - 0.25 * 0.25).abs() < 1e-12);
}
