use dataflow_extensions::dependency_graph::DependencyGraph;
use dataflow_extensions::order::OrderedSet;

#[test]
fn topological_layers_are_deterministic() {
    let mut graph: DependencyGraph<&'static str> = DependencyGraph::new();
    graph.add_node("independent");
    graph.add_dependency("middle", "provider");
    graph.add_dependency("consumer", "middle");

    assert_eq!(
        graph.topological_layers(),
        Ok(vec![
            vec!["independent", "provider"],
            vec!["middle"],
            vec!["consumer"],
        ])
    );
}

#[test]
fn cycle_members_exclude_blocked_dependents() {
    let mut graph: DependencyGraph<&'static str> = DependencyGraph::new();
    graph.add_dependency("a", "b");
    graph.add_dependency("b", "a");
    graph.add_dependency("c", "a");

    assert_eq!(graph.cycle_members(), vec!["a", "b"]);
    assert_eq!(graph.topological_layers(), Err(vec!["a", "b"]));
}

#[test]
fn reachability_excludes_dead_branches() {
    let mut graph: DependencyGraph<&'static str> = DependencyGraph::new();
    graph.add_dependency("local-consumer", "local-provider");
    graph.add_dependency("shared-consumer", "shared-provider");

    assert_eq!(
        graph.reachable_dependencies(vec!["local-consumer"]).to_vec(),
        vec!["local-consumer", "local-provider"]
    );
}

#[test]
fn shutdown_waves_preserve_transitive_order() {
    let mut graph: DependencyGraph<&'static str> = DependencyGraph::new();
    graph.add_dependency("consumer", "passive");
    graph.add_dependency("passive", "provider");
    let live = OrderedSet::from_vec(vec!["consumer", "passive", "provider"]);

    assert_eq!(
        graph.shutdown_waves(&live),
        Ok(vec![vec!["consumer"], vec!["passive"], vec!["provider"]])
    );
}

#[test]
fn shutdown_waves_do_not_delay_independent_roots() {
    let mut graph: DependencyGraph<&'static str> = DependencyGraph::new();
    graph.add_dependency("consumer", "provider");
    graph.add_node("independent");

    let live = OrderedSet::from_vec(vec!["consumer", "independent", "provider"]);
    assert_eq!(
        graph.shutdown_waves(&live),
        Ok(vec![vec!["consumer", "independent"], vec!["provider"]])
    );
}

#[test]
fn a_node_that_depends_on_itself_is_a_cycle() {
    let mut graph: DependencyGraph<u64> = DependencyGraph::new();
    graph.add_dependency(7, 7);
    graph.add_dependency(8, 7);
    assert_eq!(graph.cycle_members(), vec![7]);
    assert_eq!(graph.topological_layers(), Err(vec![7]));
}

#[test]
fn layers_do_not_depend_on_the_order_of_insertion() {
    let mut forward: DependencyGraph<String> = DependencyGraph::new();
    let mut backward: DependencyGraph<String> = DependencyGraph::new();
    let edges = [("d", "c"), ("d", "b"), ("c", "a"), ("b", "a")];
    for (consumer, provider) in edges {
        forward.add_dependency(consumer.to_string(), provider.to_string());
    }
    for (consumer, provider) in edges.into_iter().rev() {
        backward.add_dependency(consumer.to_string(), provider.to_string());
    }
    let layers = forward.topological_layers().unwrap();
    assert_eq!(layers, backward.topological_layers().unwrap());
    assert_eq!(layers, vec![vec!["a"], vec!["b", "c"], vec!["d"]]);
}

#[test]
fn waves_leave_out_what_is_not_live() {
    let mut graph: DependencyGraph<u64> = DependencyGraph::new();
    graph.add_dependencies(1, vec![2, 3]);
    graph.add_dependencies(4, Vec::new());
    let live = OrderedSet::from_vec(vec![1, 3]);
    assert_eq!(graph.shutdown_waves(&live), Ok(vec![vec![1], vec![3]]));
    assert_eq!(
        graph.topological_layers(),
        Ok(vec![vec![2, 3, 4], vec![1]])
    );
}

#[test]
fn waves_report_only_live_cycles() {
    let mut graph: DependencyGraph<u64> = DependencyGraph::new();
    graph.add_dependency(1, 2);
    graph.add_dependency(2, 1);
    graph.add_dependency(3, 1);
    assert_eq!(
        graph.shutdown_waves(&OrderedSet::from_vec(vec![1, 3])),
        Ok(vec![vec![3], vec![1]])
    );
    assert_eq!(
        graph.shutdown_waves(&OrderedSet::from_vec(vec![1, 2, 3])),
        Err(vec![1, 2])
    );
}

#[test]
fn requirements_are_closed_under_dependencies() {
    let mut graph: DependencyGraph<u64> = DependencyGraph::new();
    graph.add_dependency(1, 2);
    graph.add_dependency(2, 3);
    graph.add_dependency(5, 4);
    assert_eq!(graph.reachable_dependencies(vec![2, 9]).to_vec(), vec![2, 3]);
}

#[test]
fn ordered_sets_sort_and_drop_repetitions() {
    let mut set: OrderedSet<String> =
        OrderedSet::from_vec(vec!["b".to_string(), "a".to_string(), "b".to_string()]);
    assert_eq!(set.to_vec(), vec!["a", "b"]);
    assert!(set.insert("aa".to_string()));
    assert!(!set.insert("a".to_string()));
    assert_eq!(set.to_vec(), vec!["a", "aa", "b"]);
    assert_eq!(set.position(&"aa".to_string()), Some(1));
    assert_eq!(set.position(&"c".to_string()), None);
}

#[test]
fn all_nodes_stop_as_the_turned_graph_starts() {
    let arcs = [("a", "b"), ("b", "c"), ("a", "c"), ("d", "c"), ("e", "f")];
    let mut graph: DependencyGraph<&'static str> = DependencyGraph::new();
    let mut turned: DependencyGraph<&'static str> = DependencyGraph::new();
    for (consumer, dependency) in arcs {
        graph.add_dependency(consumer, dependency);
        turned.add_dependency(dependency, consumer);
    }
    let live = OrderedSet::from_vec(vec!["a", "b", "c", "d", "e", "f"]);
    let waves = graph.shutdown_waves(&live);
    assert_eq!(waves, turned.topological_layers());
    assert_eq!(waves, Ok(vec![vec!["a", "d", "e"], vec!["b", "f"], vec!["c"]]));
}
