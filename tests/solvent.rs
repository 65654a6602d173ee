use solvent::{DepGraph, SolventError};

#[test]
fn solvent_test_branching() {
    let mut depgraph: DepGraph<&str> = DepGraph::new();

    depgraph.register_nodes(vec!["a", "b", "c", "d", "e", "f", "g", "h", "i", "j", "k", "l", "m", "n"]);

    depgraph.register_dependencies("a", vec!["b", "c", "d"]);
    depgraph.register_dependency("b", "d");
    depgraph.register_dependencies("c", vec!["e", "m", "g"]);
    depgraph.register_dependency("e", "f");
    depgraph.register_dependency("g", "h");
    depgraph.register_dependency("h", "i");
    depgraph.register_dependencies("i", vec!["j", "k"]);
    depgraph.register_dependencies("k", vec!["l", "m"]);
    depgraph.register_dependency("m", "n");

    let mut results: Vec<&str> = Vec::new();

    let mut walk = depgraph.dependencies_of(&"a").unwrap();
    while let Some(node) = walk.next() {
        // detect infinite looping bugs
        assert!(results.len() < 30);

        let n = match node {
            Err(e) => panic!("Solvent error detected: {:?}", e),
            Ok(n) => n,
        };

        // Check that all of that nodes dependencies have already been output
        let pos = depgraph.position(n).unwrap();
        let deps: Option<&Vec<usize>> = depgraph.dependencies_at(pos);
        if deps.is_some() {
            for dep in deps.unwrap().iter() {
                assert!(results.contains(depgraph.node_at(*dep)));
            }
        }

        results.push(n.clone());
    }

    // Be sure we actually output enough stuff
    assert!(results.len() == 14);

    // Be sure each output is unique
    for result in results.iter() {
        let mut count: usize = 0;
        for result2 in results.iter() {
            if result == result2 {
                count = count + 1;
            }
        }
        assert!(count == 1);
    }
}

#[test]
fn solvent_test_updating_dependencies() {
    let mut depgraph: DepGraph<&str> = DepGraph::new();

    depgraph.register_dependencies("a", vec!["b", "c"]);
    depgraph.register_dependency("a", "d");
    assert!(depgraph.dependencies_at(0).unwrap().contains(&1));
    assert!(depgraph.dependencies_at(0).unwrap().contains(&2));
    assert!(depgraph.dependencies_at(0).unwrap().contains(&3));
}

#[test]
fn solvent_test_circular() {
    let mut depgraph: DepGraph<&str> = DepGraph::new();
    depgraph.register_dependency("a", "b");
    depgraph.register_dependency("b", "c");
    depgraph.register_dependency("c", "a");

    let mut walk = depgraph.dependencies_of(&"a").unwrap();
    while let Some(node) = walk.next() {
        assert!(node.is_err());
        assert!(node.unwrap_err() == SolventError::CycleDetected);
    }
}

#[test]
fn solvent_test_satisfied_stoppage() {
    let mut depgraph: DepGraph<&str> = DepGraph::new();
    depgraph.register_dependencies("superconn", vec![]);
    depgraph.register_dependencies("owneruser", vec!["superconn"]);
    depgraph.register_dependencies("appuser", vec!["superconn"]);
    depgraph.register_dependencies("database", vec!["owneruser"]);
    depgraph.register_dependencies("ownerconn", vec!["database", "owneruser"]);
    depgraph.register_dependencies("adminconn", vec!["database"]);
    depgraph.register_dependencies("extensions", vec!["database", "adminconn"]);
    depgraph.register_dependencies("schema_table", vec!["database", "ownerconn"]);
    depgraph.register_dependencies("schemas", vec!["ownerconn", "extensions", "schema_table", "appuser"]);
    depgraph.register_dependencies("appconn", vec!["database", "appuser", "schemas"]);

    depgraph.mark_as_satisfied(&["owneruser", "appuser"]).unwrap();
    assert_eq!(depgraph.satisfied_positions().len(), 2);

    let mut results: Vec<&str> = Vec::new();

    let mut walk = depgraph.dependencies_of(&"appconn").unwrap();
    while let Some(node) = walk.next() {
        assert!(results.len() < 30);
        match node {
            Ok(n) => results.push(n),
            Err(e) => panic!("Solvent error detected: {:?}", e),
        };
    }

    // Be sure we did not depend on these
    assert!(!results.contains(&"appuser"));
    assert!(!results.contains(&"owneruser"));
    assert!(!results.contains(&"superconn"));

    // Be sure we actually output enough stuff
    assert!(results.len() == 7);

    // Be sure each output is unique
    for result in results.iter() {
        let mut count: usize = 0;
        for result2 in results.iter() {
            if result == result2 {
                count = count + 1;
            }
        }
        assert!(count == 1);
    }
}
