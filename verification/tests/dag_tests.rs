use atlas::dag::{reachable, topo_order, CycleError};
use atlas::lifecycle::{add_dependency_decision, add_edge, cycle_error, kahn_fifo, would_cycle};
use atlas::model::TaskState;
use atlas::error::AtlasError;
use std::collections::HashMap;
use std::time::Instant;

fn edges(pairs: &[(&str, &str)]) -> Vec<(String, String)> {
    pairs
        .iter()
        .map(|(c, p)| ((*c).to_owned(), (*p).to_owned()))
        .collect()
}

#[test]
fn reachable_walks_transitive_parents_sorted() {
    let e = edges(&[("c", "b"), ("b", "a"), ("c", "a"), ("zzz", "a")]);
    assert_eq!(reachable("c", &e), vec!["a", "b"]);
}

#[test]
fn reachable_unknown_start_is_empty() {
    let e = edges(&[("b", "a")]);
    assert!(reachable("ghost", &e).is_empty());
}

#[test]
fn topo_orders_parents_first_deterministically() {
    let nodes = vec!["c".to_owned(), "b".to_owned(), "a".to_owned()];
    let e = edges(&[("c", "b"), ("b", "a")]);
    assert_eq!(
        topo_order(&nodes, &e),
        Ok(vec!["a".to_owned(), "b".to_owned(), "c".to_owned()])
    );
}

#[test]
fn topo_reports_cycle_members() {
    let nodes = vec!["a".to_owned(), "b".to_owned()];
    let e = edges(&[("a", "b"), ("b", "a")]);
    let err = topo_order(&nodes, &e).expect_err("cycle must fail");
    assert_eq!(err.nodes, vec!["a", "b"]);
}

#[test]
fn reachable_never_reports_start_even_on_cycle() {
    let e = edges(&[("a", "b"), ("b", "a"), ("b", "c")]);
    assert_eq!(reachable("a", &e), vec!["b", "c"]);
}

#[test]
fn topo_breaks_ties_lexicographically_and_adds_edge_only_ids() {
    let nodes = vec!["b".to_owned(), "a".to_owned()];
    let e = edges(&[("e", "zzz")]);
    assert_eq!(
        topo_order(&nodes, &e),
        Ok(vec!["a".to_owned(), "b".to_owned(), "zzz".to_owned(), "e".to_owned()])
    );
}

#[test]
fn topo_ignores_duplicate_edges() {
    let nodes = vec!["a".to_owned(), "b".to_owned()];
    let e = edges(&[("b", "a"), ("b", "a")]);
    assert_eq!(topo_order(&nodes, &e), Ok(vec!["a".to_owned(), "b".to_owned()]));
}

#[test]
fn topo_cycle_leftover_includes_downstream_nodes() {
    let nodes = vec!["a".to_owned()];
    let e = edges(&[("b", "c"), ("c", "b"), ("d", "c")]);
    let err = topo_order(&nodes, &e).expect_err("cycle");
    assert_eq!(err, CycleError { nodes: vec!["b".to_owned(), "c".to_owned(), "d".to_owned()] });
    assert_eq!(err.message(), "cycle detected among: b, c, d");
}

#[test]
fn cycle_rejected() {
    let e = edges(&[("b", "a")]);
    // b depends on a, so a must not depend on b.
    assert!(would_cycle("a", "b", &e));
    // Self-edge is also a cycle.
    assert!(would_cycle("a", "a", &e));
    // Longer cycle: c -> b -> a, then a -> c rejected.
    let e2 = edges(&[("b", "a"), ("c", "b")]);
    assert!(would_cycle("a", "c", &e2));
    assert!(!would_cycle("c", "a", &e2));
    match cycle_error("a", "c") {
        AtlasError::Cycle { child, parent } => {
            assert_eq!(child, "a");
            assert_eq!(parent, "c");
        }
        other => panic!("unexpected {other:?}"),
    }
}

#[test]
fn accepted_edges_keep_graph_acyclic() {
    // Adding only edges that would_cycle accepts never creates a cycle.
    let mut e: Vec<(String, String)> = Vec::new();
    let candidates = [("b", "a"), ("c", "b"), ("a", "c"), ("c", "a"), ("a", "b"), ("d", "c")];
    for (c, p) in candidates {
        if !would_cycle(c, p, &e) {
            e.push((c.to_owned(), p.to_owned()));
        }
    }
    let nodes: Vec<String> = ["a", "b", "c", "d"].iter().map(|s| s.to_string()).collect();
    assert!(topo_order(&nodes, &e).is_ok());
    assert_eq!(e.len(), 4);
}

#[test]
fn traversal_100k_nodes() {
    const N: usize = 100_000;
    // Chain + skip-one + skip-three edges (~250k), acyclic by construction.
    let mut e: Vec<(usize, usize)> = Vec::new();
    for i in 1..N {
        e.push((i, i - 1));
    }
    for i in 2..N {
        e.push((i, i - 2));
    }
    for i in (3..N).step_by(2) {
        e.push((i, i - 3));
    }
    assert!(e.len() >= 249_990, "edges: {}", e.len());
    let t0 = Instant::now();
    let order = kahn_fifo(N, &e);
    let dt = t0.elapsed();
    assert_eq!(order.len(), N);
    let pos: HashMap<usize, usize> = order.iter().enumerate().map(|(i, id)| (*id, i)).collect();
    assert!(pos[&0] < pos[&(N - 1)]);
    assert!(dt.as_secs() < 5, "traversal budget exceeded: {dt:?}");
}

#[test]
fn kahn_fifo_keeps_fifo_order_and_drops_cycles() {
    // 0 and 2 are ready first (index order), then 1 (child of 0), then 3.
    let e = vec![(1, 0), (3, 1), (3, 2)];
    assert_eq!(kahn_fifo(4, &e), vec![0, 2, 1, 3]);
    // A cycle between 1 and 2 leaves both (and 3 below them) out.
    let c = vec![(1, 2), (2, 1), (3, 2)];
    assert_eq!(kahn_fifo(4, &c), vec![0]);
}

#[test]
fn add_edge_refuses_cycles_and_ignores_duplicates() {
    let e = edges(&[("b", "a")]);
    match add_edge("a", "b", &e) {
        Err(AtlasError::Cycle { child, parent }) => {
            assert_eq!(child, "a");
            assert_eq!(parent, "b");
        }
        other => panic!("unexpected {other:?}"),
    }
    assert!(add_edge("a", "a", &e).is_err());
    assert_eq!(add_edge("b", "a", &e).expect("duplicate"), e);
    let grown = add_edge("c", "b", &e).expect("new edge");
    assert_eq!(grown, edges(&[("b", "a"), ("c", "b")]));
}

#[test]
fn add_dependency_refreshes_child_state() {
    let e = edges(&[("b", "a")]);
    let states = vec![
        ("a".to_owned(), TaskState::Completed),
        ("b".to_owned(), TaskState::Ready),
        ("c".to_owned(), TaskState::Ready),
    ];
    // A completed parent keeps the child READY.
    let (es, st) = add_dependency_decision("c", "a", &e, &states).expect("edge");
    assert_eq!(es, edges(&[("b", "a"), ("c", "a")]));
    assert_eq!(st, TaskState::Ready);
    // An open parent blocks it.
    let (_, st) = add_dependency_decision("c", "b", &e, &states).expect("edge");
    assert_eq!(st, TaskState::Blocked);
    // Refusals: cycle, then unknown tasks.
    assert!(matches!(add_dependency_decision("a", "b", &e, &states), Err(AtlasError::Cycle { .. })));
    assert_eq!(
        add_dependency_decision("zz", "a", &e, &states),
        Err(AtlasError::NotFound("task zz".to_owned()))
    );
}
