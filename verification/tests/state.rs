use fugue::invention::{Invention, ModuleSpec};
use fugue::json::{Json, Number};
use fugue::rpc::ControlValue;
use fugue::runtime::{GraphCommandError, RuntimeConnectionInfo};
use fugue::state::{related_connections, ModulePorts, PortDirectory, RuntimeState};

fn s(text: &str) -> String {
    text.to_string()
}

fn conn(from: &str, from_port: &str, to: &str, to_port: &str) -> RuntimeConnectionInfo {
    RuntimeConnectionInfo { from: s(from), from_port: s(from_port), to: s(to), to_port: s(to_port) }
}

fn ports(inputs: &[&str], outputs: &[&str]) -> ModulePorts {
    ModulePorts {
        inputs: inputs.iter().map(|p| s(p)).collect(),
        outputs: outputs.iter().map(|p| s(p)).collect(),
    }
}

fn document() -> Invention {
    Invention {
        version: s("1.0.0"),
        title: Some(s("live")),
        description: None,
        developments: Vec::new(),
        assets: Vec::new(),
        modules: vec![ModuleSpec { id: s("osc"), module_type: s("oscillator"), config: Json::Null }],
        connections: Vec::new(),
        inputs: Vec::new(),
        outputs: Vec::new(),
        controls: Vec::new(),
        source_path: None,
    }
}

/// A running state with `osc -> vca -> dac` and a retained document.
fn running() -> RuntimeState {
    let mut state = RuntimeState::new(48_000);
    state.document = Some(document());
    state.record_add(&s("osc"), &s("oscillator"), &Json::Null);
    state.record_add(&s("vca"), &s("vca"), &Json::Null);
    state.record_add(&s("dac"), &s("dac"), &Json::Null);
    state.add_connection(&conn("osc", "audio", "vca", "audio"));
    state.add_connection(&conn("vca", "audio", "dac", "audio"));
    state
}

#[test]
fn new_state_is_empty_and_stopped() {
    let state = RuntimeState::new(44_100);
    let status = state.status();
    assert!(!status.running);
    assert_eq!(status.sample_rate, 44_100);
    assert_eq!(status.module_count, 0);
    assert_eq!(status.connection_count, 0);
    assert!(state.document().is_none());
}

#[test]
fn record_add_keeps_one_entry_per_id() {
    let mut state = running();
    state.record_add(&s("osc"), &s("noise"), &Json::Bool(true));
    assert_eq!(state.modules.len(), 3);
    assert_eq!(state.modules[0].id, "osc");
    assert_eq!(state.modules[0].module_type, "noise");
    let doc = state.document().unwrap();
    assert_eq!(doc.modules.len(), 3);
    assert_eq!(doc.modules[0].module_type, "noise");
    assert_eq!(doc.modules[1].id, "vca");
}

#[test]
fn record_remove_drops_module_and_touching_connections() {
    let mut state = running();
    state.record_remove(&s("vca"));
    assert!(!state.has_module(&s("vca")));
    assert!(state.has_module(&s("osc")));
    assert!(state.connections.is_empty());
    let doc = state.document().unwrap();
    assert_eq!(doc.modules.iter().map(|m| m.id.as_str()).collect::<Vec<_>>(), vec!["osc", "dac"]);
    assert_eq!(state.status().module_count, 2);
}

#[test]
fn disconnect_undoes_connect() {
    let mut state = running();
    let before: Vec<(String, String)> = state.connections.iter().map(|c| (c.from.clone(), c.to.clone())).collect();
    let extra = conn("osc", "audio", "dac", "audio");
    state.add_connection(&extra);
    assert_eq!(state.connections.len(), 3);
    state.remove_connection(&extra);
    let after: Vec<(String, String)> = state.connections.iter().map(|c| (c.from.clone(), c.to.clone())).collect();
    assert_eq!(before, after);
}

#[test]
fn document_mirrors_live_connections_with_absent_empty_ports() {
    let mut state = running();
    state.add_connection(&conn("osc", "", "dac", ""));
    let doc = state.document().unwrap();
    assert_eq!(doc.connections.len(), 3);
    assert_eq!(doc.connections[0].from, "osc");
    assert_eq!(doc.connections[0].from_port.as_deref(), Some("audio"));
    assert_eq!(doc.connections[2].from_port, None);
    assert_eq!(doc.connections[2].to_port, None);
    assert_eq!(doc.title.as_deref(), Some("live"));
}

#[test]
fn control_writes_land_in_the_document_config() {
    let mut state = running();
    state.document_write_control(&s("osc"), &s("frequency"), &ControlValue::Number(Number::PosInt(220)));
    state.document_write_control(&s("osc"), &s("waveform"), &ControlValue::String(s("saw")));
    state.document_write_control(&s("osc"), &s("frequency"), &ControlValue::Number(Number::PosInt(330)));
    state.document_write_control(&s("ghost"), &s("level"), &ControlValue::Bool(true));
    let doc = state.document().unwrap();
    assert_eq!(
        doc.modules[0].config,
        Json::Object(vec![
            (s("frequency"), Json::Number(Number::PosInt(330))),
            (s("waveform"), Json::String(s("saw"))),
        ])
    );
    assert_eq!(doc.modules.len(), 3);
}

#[test]
fn swap_plan_restores_only_compatible_connections() {
    let state = running();
    let plan = state.plan_swap(&s("vca"), &ports(&["audio"], &["out"]), true).unwrap();
    assert_eq!(plan.disconnect.len(), 2);
    assert_eq!(plan.reconnect.len(), 1);
    assert_eq!(plan.reconnect[0].from, "osc");
    let plan = state.plan_swap(&s("vca"), &ports(&["audio"], &["audio"]), false).unwrap();
    assert_eq!(plan.disconnect.len(), 2);
    assert!(plan.reconnect.is_empty());
    match state.plan_swap(&s("nope"), &ports(&[], &[]), true) {
        Err(GraphCommandError::UnknownModule(id)) => assert_eq!(id, "nope"),
        _ => panic!("expected an unknown module"),
    }
}

#[test]
fn record_swap_replaces_touching_connections() {
    let mut state = running();
    state.record_swap(&s("vca"), &s("filter"), &Json::Null, &vec![conn("osc", "audio", "vca", "audio")]);
    assert_eq!(state.modules[1].module_type, "filter");
    assert_eq!(state.connections.len(), 1);
    assert_eq!(state.connections[0].from, "osc");
    assert_eq!(related_connections(&state.connections, &s("dac")).len(), 0);
}

#[test]
fn port_directory_names_the_missing_port() {
    let mut dir = PortDirectory::new();
    dir.insert(&s("osc"), &ports(&["fm"], &["audio", "sync"]));
    dir.insert(&s("dac"), &ports(&["audio"], &[]));
    assert!(dir.check_connection("osc", "audio", "dac", "audio").is_ok());
    match dir.check_connection("osc", "cv", "dac", "audio") {
        Err(e @ GraphCommandError::InvalidPort(_)) => assert_eq!(
            e.message(),
            "invalid port: module 'osc' does not have output port 'cv' (available: [\"audio\", \"sync\"])"
        ),
        _ => panic!("expected an invalid port"),
    }
    match dir.check_connection("lfo", "out", "dac", "audio") {
        Err(e) => assert_eq!(e.message(), "unknown module: lfo"),
        Ok(()) => panic!("expected an unknown module"),
    }
    dir.remove(&s("dac"));
    match dir.check_connection("osc", "audio", "dac", "audio") {
        Err(GraphCommandError::UnknownModule(id)) => assert_eq!(id, "dac"),
        _ => panic!("expected an unknown module"),
    }
}
