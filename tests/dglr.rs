use solvent::dglr::DepGraph;

#[test]
fn dglr_test() {
    let mut depgraph: DepGraph = DepGraph::new();

    depgraph.add_dependencies("a", vec!["b", "c", "d"]);
    depgraph.add_dependency("b", "d");
    depgraph.add_dependencies("c", vec!["e", "m", "g"]);
    depgraph.add_dependency("e", "f");
    depgraph.add_dependency("g", "h");
    depgraph.add_dependency("h", "i");
    depgraph.add_dependencies("i", vec!["j", "k"]);
    depgraph.add_dependencies("k", vec!["l", "m"]);
    depgraph.add_dependency("m", "n");

    let deps = depgraph.get_ordered_dependencies_of("a").unwrap();
    assert!(
        deps == vec![
            String::from("d"),
            String::from("b"),
            String::from("f"),
            String::from("e"),
            String::from("n"),
            String::from("m"),
            String::from("j"),
            String::from("l"),
            String::from("k"),
            String::from("i"),
            String::from("h"),
            String::from("g"),
            String::from("c")
        ]
    );

    let deps2 = depgraph.get_ordered_dependencies_of("i").unwrap();
    assert!(
        deps2
            == vec![
                String::from("j"),
                String::from("l"),
                String::from("n"),
                String::from("m"),
                String::from("k")
            ]
    );

    depgraph.add_dependency("i", "g");
    let deps3 = depgraph.get_ordered_dependencies_of("a");
    assert!(deps3 == None);
}

#[test]
fn dglr_dglr_test() {
    let mut depgraph: DepGraph = DepGraph::new();

    depgraph.register_dependencies("a", &["b", "c", "d"]);
    depgraph.register_dependency("b", "d");
    depgraph.register_dependencies("c", &["e", "m", "g"]);
    depgraph.register_dependency("e", "f");
    depgraph.register_dependency("g", "h");
    depgraph.register_dependency("h", "i");
    depgraph.register_dependencies("i", &["j", "k"]);
    depgraph.register_dependencies("k", &["l", "m"]);
    depgraph.register_dependency("m", "n");

    let deps = depgraph.get_ordered_dependencies_of("a").unwrap();
    assert!(
        deps == vec![
            String::from("d"),
            String::from("b"),
            String::from("f"),
            String::from("e"),
            String::from("n"),
            String::from("m"),
            String::from("j"),
            String::from("l"),
            String::from("k"),
            String::from("i"),
            String::from("h"),
            String::from("g"),
            String::from("c")
        ]
    );

    let deps2 = depgraph.get_ordered_dependencies_of("i").unwrap();
    assert!(
        deps2
            == vec![
                String::from("j"),
                String::from("l"),
                String::from("n"),
                String::from("m"),
                String::from("k")
            ]
    );

    depgraph.register_dependency("i", "g");
    let deps3 = depgraph.get_ordered_dependencies_of("a");
    assert!(deps3 == None);
}

#[test]
fn dglr_unknown_name_has_no_dependencies() {
    let mut depgraph: DepGraph = DepGraph::new();
    depgraph.register_dependency("a", "b");
    assert_eq!(depgraph.get_ordered_dependencies_of("zzz"), Some(Vec::new()));
    assert_eq!(depgraph.get_ordered_dependencies_of("b"), Some(Vec::new()));
    assert_eq!(depgraph.get_ordered_dependencies_of("a"), Some(vec![String::from("b")]));
}

#[test]
fn dglr_repeated_dependency_is_kept_once() {
    let mut depgraph: DepGraph = DepGraph::new();
    depgraph.register_dependencies("a", &["b", "b"]);
    depgraph.register_dependency("a", "b");
    depgraph.register_dependency("b", "c");
    assert_eq!(
        depgraph.get_ordered_dependencies_of("a"),
        Some(vec![String::from("c"), String::from("b")])
    );
}

#[test]
fn dglr_self_dependency_is_a_cycle() {
    let mut depgraph: DepGraph = DepGraph::new();
    depgraph.register_dependency("a", "a");
    assert_eq!(depgraph.get_ordered_dependencies_of("a"), None);
}
