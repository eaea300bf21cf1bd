use fugue::topology::{compile_topology, CompiledTopology, ModulePorts, RoutingConnection};

/// Compiles a graph of stub oscillators (output "audio", input "fm"); only
/// the topology matters.
fn test_graph(module_ids: &[&str], connections: &[(&str, &str)]) -> (Vec<String>, CompiledTopology) {
    let ids: Vec<String> = module_ids.iter().map(|id| id.to_string()).collect();
    let ports: Vec<ModulePorts> = module_ids
        .iter()
        .map(|_| ModulePorts {
            inputs: vec!["frequency".to_string(), "fm".to_string()],
            outputs: vec!["audio".to_string()],
            control_targets: Vec::new(),
        })
        .collect();
    let edges: Vec<RoutingConnection> = connections
        .iter()
        .map(|&(from, to)| RoutingConnection {
            from_module: from.to_string(),
            from_port: "audio".to_string(),
            to_module: to.to_string(),
            to_port: "fm".to_string(),
        })
        .collect();
    let compiled = compile_topology(&ids, &ports, &edges, &Vec::new(), 128);
    (ids, compiled)
}

fn index_of(ids: &[String], id: &str) -> usize {
    ids.iter()
        .position(|s| s == id)
        .unwrap_or_else(|| panic!("{id} not found"))
}

/// Returns the feedback flag for the group containing `id`.
fn group_is_feedback(ids: &[String], graph: &CompiledTopology, id: &str) -> bool {
    let idx = index_of(ids, id);
    graph
        .process_groups
        .iter()
        .find(|g| g.members.contains(&idx))
        .map(|g| g.feedback)
        .unwrap_or_else(|| panic!("{id} not in any process group"))
}

/// Position of `id` in the process order.
fn pos(ids: &[String], graph: &CompiledTopology, id: &str) -> usize {
    graph.position[index_of(ids, id)]
}

#[test]
fn test_acyclic_modules_are_not_feedback_groups() {
    // a → b → c — every module is its own trivial, full-block group.
    let (ids, graph) = test_graph(&["a", "b", "c"], &[("a", "b"), ("b", "c")]);
    assert_eq!(graph.process_groups.len(), 3);
    assert!(!group_is_feedback(&ids, &graph, "a"));
    assert!(!group_is_feedback(&ids, &graph, "b"));
    assert!(!group_is_feedback(&ids, &graph, "c"));
}

#[test]
fn test_cycle_members_share_one_feedback_group() {
    // osc1 ↔ osc2 (cycle), osc1 → dac.
    let (ids, graph) = test_graph(
        &["osc1", "osc2", "dac"],
        &[("osc1", "osc2"), ("osc2", "osc1"), ("osc1", "dac")],
    );

    // osc1 and osc2 form a single feedback group; dac is acyclic.
    assert!(group_is_feedback(&ids, &graph, "osc1"));
    assert!(group_is_feedback(&ids, &graph, "osc2"));
    assert!(!group_is_feedback(&ids, &graph, "dac"));

    let osc1 = index_of(&ids, "osc1");
    let osc2 = index_of(&ids, "osc2");
    let group = graph
        .process_groups
        .iter()
        .find(|g| g.members.contains(&osc1))
        .unwrap();
    assert!(group.members.contains(&osc2));
    assert_eq!(group.members.len(), 2);

    // Exactly one of the two intra-cycle edges is a delayed back-edge.
    let delayed_into_osc1 = graph.compiled_routes[osc1].iter().any(|r| r.delayed);
    let delayed_into_osc2 = graph.compiled_routes[osc2].iter().any(|r| r.delayed);
    assert!(
        delayed_into_osc1 ^ delayed_into_osc2,
        "exactly one back-edge expected in a 2-cycle"
    );
}

#[test]
fn test_three_node_cycle_is_single_feedback_group() {
    let (_ids, graph) = test_graph(&["a", "b", "c"], &[("a", "b"), ("b", "c"), ("c", "a")]);
    assert_eq!(graph.process_groups.len(), 1);
    assert!(graph.process_groups[0].feedback);
    assert_eq!(graph.process_groups[0].members.len(), 3);
}

#[test]
fn test_cycle_downstream_ordering() {
    // osc1 ↔ osc2 (cycle), osc1 → dac: all three are ordered, dac after osc1.
    let (ids, graph) = test_graph(
        &["osc1", "osc2", "dac"],
        &[("osc1", "osc2"), ("osc2", "osc1"), ("osc1", "dac")],
    );
    assert_eq!(graph.process_order.len(), 3, "all modules must be visited");
    assert!(pos(&ids, &graph, "dac") > pos(&ids, &graph, "osc1"));
}

#[test]
fn test_linear_chain_ordering() {
    // a → b → c — strict dependency order
    let (ids, graph) = test_graph(&["a", "b", "c"], &[("a", "b"), ("b", "c")]);
    let order: Vec<&str> = graph.process_order.iter().map(|&i| ids[i].as_str()).collect();
    assert_eq!(order, vec!["a", "b", "c"]);
}

#[test]
fn test_three_node_cycle_all_visited() {
    // a → b → c → a (cycle) — all three must appear in process order
    let (ids, graph) = test_graph(&["a", "b", "c"], &[("a", "b"), ("b", "c"), ("c", "a")]);
    assert_eq!(graph.process_order.len(), 3);
    assert!(pos(&ids, &graph, "a") < pos(&ids, &graph, "b"));
    assert!(pos(&ids, &graph, "b") < pos(&ids, &graph, "c"));
}

#[test]
fn tarjan_groups_mutually_reachable_nodes_in_topological_order() {
    let adj = vec![vec![1, 2], vec![0], vec![]];
    let (comp_id, comps) = fugue::scc::tarjan_scc(&adj, 3);
    assert_eq!(comp_id, vec![0, 0, 1]);
    assert_eq!(comps.len(), 2);
    let mut first = comps[0].clone();
    first.sort();
    assert_eq!(first, vec![0, 1]);
    assert_eq!(comps[1], vec![2]);
}

#[test]
fn tarjan_keeps_a_chain_apart() {
    let adj = vec![vec![1], vec![2], vec![]];
    let (comp_id, comps) = fugue::scc::tarjan_scc(&adj, 3);
    assert_eq!(comp_id, vec![0, 1, 2]);
    assert_eq!(comps, vec![vec![0], vec![1], vec![2]]);
}
