use fugue::graph::{GraphEdit, SignalTopology};
use fugue::topology::RoutingConnection;

fn s(text: &str) -> String {
    text.to_string()
}

fn edge(from: &str, to: &str) -> RoutingConnection {
    RoutingConnection { from_module: s(from), from_port: s("audio"), to_module: s(to), to_port: s("audio") }
}

fn add(topology: &mut SignalTopology, id: &str, is_sink: bool) {
    topology.apply_command(GraphEdit::AddModule { module_id: s(id), is_sink });
}

fn empty() -> SignalTopology {
    SignalTopology { module_ids: Vec::new(), sinks: Vec::new(), edges: Vec::new(), topo_dirty: false }
}

fn ends(topology: &SignalTopology) -> Vec<(String, String)> {
    topology.edges.iter().map(|e| (e.from_module.clone(), e.to_module.clone())).collect()
}

#[test]
fn adding_modules_keeps_map_order_and_sinks() {
    let mut t = empty();
    add(&mut t, "osc", false);
    add(&mut t, "dac", true);
    add(&mut t, "osc", false);
    assert_eq!(t.module_ids, vec![s("osc"), s("dac")]);
    assert_eq!(t.sinks, vec![s("dac")]);
    assert!(t.topo_dirty);
}

#[test]
fn removing_a_module_swaps_in_the_last_and_drops_its_edges() {
    let mut t = empty();
    add(&mut t, "osc", false);
    add(&mut t, "vca", false);
    add(&mut t, "lfo", false);
    add(&mut t, "dac", true);
    t.apply_command(GraphEdit::AddConnection(edge("osc", "vca")));
    t.apply_command(GraphEdit::AddConnection(edge("lfo", "vca")));
    t.apply_command(GraphEdit::AddConnection(edge("vca", "dac")));
    t.apply_command(GraphEdit::RemoveModule { module_id: s("vca") });
    assert_eq!(t.module_ids, vec![s("osc"), s("dac"), s("lfo")]);
    assert!(t.edges.is_empty());
    t.apply_command(GraphEdit::RemoveModule { module_id: s("dac") });
    assert_eq!(t.module_ids, vec![s("osc"), s("lfo")]);
    assert!(t.sinks.is_empty());
}

#[test]
fn removing_a_connection_removes_every_copy() {
    let mut t = empty();
    add(&mut t, "osc", false);
    add(&mut t, "dac", true);
    t.apply_command(GraphEdit::AddConnection(edge("osc", "dac")));
    t.apply_command(GraphEdit::AddConnection(edge("dac", "osc")));
    t.apply_command(GraphEdit::AddConnection(edge("osc", "dac")));
    t.apply_command(GraphEdit::RemoveConnection(edge("osc", "dac")));
    assert_eq!(ends(&t), vec![(s("dac"), s("osc"))]);
}

#[test]
fn input_writes_leave_the_order_alone() {
    let mut t = empty();
    add(&mut t, "osc", false);
    t.topo_dirty = false;
    t.apply_command(GraphEdit::SetModuleInput { module_id: s("osc") });
    assert!(!t.topo_dirty);
    assert_eq!(t.module_ids, vec![s("osc")]);
}
