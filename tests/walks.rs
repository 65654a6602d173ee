use solvent::{DepGraph, SolventError};

fn branching_graph() -> DepGraph<&'static str> {
    let mut depgraph: DepGraph<&str> = DepGraph::new();
    depgraph.register_dependencies("a", vec!["b", "c", "d"]);
    depgraph.register_dependency("b", "d");
    depgraph.register_dependencies("c", vec!["e", "m", "g"]);
    depgraph.register_dependency("e", "f");
    depgraph.register_dependency("g", "h");
    depgraph.register_dependency("h", "i");
    depgraph.register_dependencies("i", vec!["j", "k"]);
    depgraph.register_dependencies("k", vec!["l", "m"]);
    depgraph.register_dependency("m", "n");
    depgraph
}

fn walk_all<'a>(depgraph: &'a DepGraph<&'static str>, target: &'static str) -> Vec<Result<&'static str, SolventError>> {
    let mut out = Vec::new();
    let mut walk = depgraph.dependencies_of(&target).unwrap();
    while let Some(node) = walk.next() {
        assert!(out.len() < 100);
        out.push(node.map(|n| *n));
    }
    out
}

fn oks(results: &[Result<&'static str, SolventError>]) -> Vec<&'static str> {
    results.iter().map(|r| *r.as_ref().unwrap()).collect()
}

#[test]
fn branching_walk_has_exact_order() {
    let depgraph = branching_graph();
    let order = oks(&walk_all(&depgraph, "a"));
    assert_eq!(order, vec!["d", "b", "f", "e", "n", "m", "j", "l", "k", "i", "h", "g", "c", "a"]);
}

#[test]
fn inner_target_walks_its_own_closure() {
    let depgraph = branching_graph();
    let order = oks(&walk_all(&depgraph, "i"));
    assert_eq!(order, vec!["j", "l", "n", "m", "k", "i"]);
}

#[test]
fn identical_registrations_give_identical_walks() {
    let first = branching_graph();
    let second = branching_graph();
    assert_eq!(walk_all(&first, "a"), walk_all(&second, "a"));
    assert_eq!(walk_all(&first, "c"), walk_all(&second, "c"));
}

#[test]
fn walk_is_sound_and_unique_with_presatisfied_nodes() {
    let mut depgraph = branching_graph();
    depgraph.mark_as_satisfied(&["g"]).unwrap();
    let order = oks(&walk_all(&depgraph, "a"));
    // g, and h, i, j, k, l reached only through g, are pruned; m and n stay.
    assert_eq!(order, vec!["d", "b", "f", "e", "n", "m", "c", "a"]);
}

#[test]
fn satisfied_target_yields_nothing() {
    let mut depgraph = branching_graph();
    depgraph.mark_as_satisfied(&["a"]).unwrap();
    assert!(walk_all(&depgraph, "a").is_empty());
}

#[test]
fn marking_twice_changes_nothing() {
    let mut depgraph = branching_graph();
    depgraph.mark_as_satisfied(&["c", "e"]).unwrap();
    let once: Vec<usize> = depgraph.satisfied_positions().clone();
    depgraph.mark_as_satisfied(&["e", "c", "c"]).unwrap();
    assert_eq!(depgraph.satisfied_positions(), &once);
    assert_eq!(once.len(), 2);
}

#[test]
fn marking_unknown_node_fails_and_changes_nothing() {
    let mut depgraph = branching_graph();
    assert_eq!(depgraph.mark_as_satisfied(&["b", "zzz"]), Err(SolventError::NoSuchNode));
    assert!(depgraph.satisfied_positions().is_empty());
    let order = oks(&walk_all(&depgraph, "b"));
    assert_eq!(order, vec!["d", "b"]);
}

#[test]
fn walk_of_unknown_target_fails() {
    let depgraph = branching_graph();
    assert!(matches!(depgraph.dependencies_of(&"zzz"), Err(SolventError::NoSuchNode)));
}

#[test]
fn cycle_is_first_and_only_result() {
    let mut depgraph: DepGraph<&str> = DepGraph::new();
    depgraph.register_dependency("a", "b");
    depgraph.register_dependency("b", "c");
    depgraph.register_dependency("c", "a");
    let mut walk = depgraph.dependencies_of(&"a").unwrap();
    assert_eq!(walk.cycle_node(), None);
    assert_eq!(walk.next(), Some(Err(SolventError::CycleDetected)));
    assert_eq!(walk.cycle_node(), Some(&"a"));
    assert_eq!(walk.next(), None);
    assert_eq!(walk.next(), None);
}

#[test]
fn cycle_after_some_results_ends_the_walk() {
    let mut depgraph = branching_graph();
    depgraph.register_dependency("i", "g");
    let results = walk_all(&depgraph, "a");
    assert_eq!(results.last(), Some(&Err(SolventError::CycleDetected)));
    assert_eq!(results.iter().filter(|r| r.is_err()).count(), 1);
    assert_eq!(oks(&results[..results.len() - 1]), vec!["d", "b", "f", "e", "n", "m", "j", "l", "k"]);
}

#[test]
fn target_away_from_cycle_is_unaffected() {
    let mut depgraph: DepGraph<&str> = DepGraph::new();
    depgraph.register_dependency("x", "y");
    depgraph.register_dependency("b", "c");
    depgraph.register_dependency("c", "b");
    depgraph.register_dependency("a", "b");
    assert_eq!(walk_all(&depgraph, "a"), vec![Err(SolventError::CycleDetected)]);
    assert_eq!(oks(&walk_all(&depgraph, "x")), vec!["y", "x"]);
}

#[test]
fn satisfied_node_hides_a_cycle_behind_it() {
    let mut depgraph: DepGraph<&str> = DepGraph::new();
    depgraph.register_dependency("a", "b");
    depgraph.register_dependency("b", "c");
    depgraph.register_dependency("c", "b");
    depgraph.mark_as_satisfied(&["b"]).unwrap();
    assert_eq!(oks(&walk_all(&depgraph, "a")), vec!["a"]);
}

#[test]
fn repeated_edge_is_kept_once() {
    let mut depgraph: DepGraph<&str> = DepGraph::new();
    depgraph.register_dependency("a", "b");
    depgraph.register_dependency("a", "b");
    depgraph.register_dependencies("a", vec!["b", "c", "b"]);
    assert_eq!(depgraph.dependencies_at(0), Some(&vec![1, 2]));
    assert_eq!(depgraph.dependencies_at(1), Some(&vec![]));
    assert_eq!(depgraph.dependencies_at(3), None);
}

#[test]
fn registering_nodes_skips_repeats() {
    let mut depgraph: DepGraph<u64> = DepGraph::new();
    depgraph.register_nodes(vec![7, 3, 7, 9]);
    depgraph.register_node(3);
    assert_eq!(depgraph.position(&7), Some(0));
    assert_eq!(depgraph.position(&3), Some(1));
    assert_eq!(depgraph.position(&9), Some(2));
    assert_eq!(depgraph.position(&4), None);
    assert_eq!(*depgraph.node_at(2), 9);
}

#[test]
fn leaf_target_yields_itself() {
    let mut depgraph: DepGraph<u64> = DepGraph::new();
    depgraph.register_node(5);
    let mut walk = depgraph.dependencies_of(&5).unwrap();
    assert_eq!(walk.next(), Some(Ok(&5)));
    assert_eq!(walk.next(), None);
}

#[test]
fn error_messages() {
    assert_eq!(SolventError::CycleDetected.message(), "Cycle Detected");
    assert_eq!(SolventError::NoSuchNode.message(), "No Such Node");
}
