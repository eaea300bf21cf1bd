use fugue::module::{validate_port, Connection};
use fugue::patch::{Mode, ModularPatchBuilder, OscillatorType, Patch, PatchConnection, PatchModule};
use fugue::runtime::{GraphCommandError, ReloadError};
use fugue::state::ModulePorts;

#[test]
fn test_validate_port() {
    let ports = &["audio", "cv", "gate"];

    assert!(validate_port("audio", ports, "input").is_ok());
    assert!(validate_port("cv", ports, "input").is_ok());
    assert!(validate_port("invalid", ports, "input").is_err());
}

#[test]
fn unknown_port_message_lists_the_valid_ports() {
    let err = validate_port("x", &["a", "b"], "output").unwrap_err();
    assert_eq!(err, format!("Unknown output port 'x'. Valid ports: {:?}", ["a", "b"]));
}

#[test]
fn connection_reads_back_the_last_write() {
    let mut cable = Connection::new(0.25f32);
    assert_eq!(cable.read(), 0.25);
    cable.write(0.5);
    assert_eq!(cable.read(), 0.5);
}

fn module(id: &str, module_type: &str) -> PatchModule {
    PatchModule { id: id.to_string(), module_type: module_type.to_string(), oscillator_type: None }
}

fn wire(from: &str, to: &str) -> PatchConnection {
    PatchConnection {
        from: from.to_string(),
        from_port: Some("out".to_string()),
        to: to.to_string(),
        to_port: Some("in".to_string()),
    }
}

#[test]
fn patch_with_feedback_loop_is_rejected() {
    let builder = ModularPatchBuilder::new(44100);
    let patch = Patch {
        modules: vec![module("a", "oscillator"), module("b", "vca"), module("dac", "dac")],
        connections: vec![wire("a", "b"), wire("b", "a"), wire("b", "dac")],
    };
    let err = builder.validate_patch(&patch).unwrap_err();
    assert_eq!(err, "Cycle detected in signal graph involving module 'a'");
}

#[test]
fn acyclic_patch_with_dac_is_accepted() {
    let builder = ModularPatchBuilder::new(44100);
    let patch = Patch {
        modules: vec![module("a", "oscillator"), module("dac", "dac")],
        connections: vec![wire("a", "dac")],
    };
    assert!(builder.validate_patch(&patch).is_ok());
}

#[test]
fn patch_errors_name_the_first_problem() {
    let builder = ModularPatchBuilder::new(44100);
    let unknown = Patch { modules: vec![module("dac", "dac")], connections: vec![wire("x", "dac")] };
    assert_eq!(builder.validate_patch(&unknown).unwrap_err(), "Unknown source module: x");
    let no_dac = Patch { modules: vec![module("a", "oscillator")], connections: Vec::new() };
    assert_eq!(builder.validate_patch(&no_dac).unwrap_err(), "No DAC module found");
    let mut missing_port = wire("a", "dac");
    missing_port.to_port = None;
    let portless = Patch {
        modules: vec![module("a", "oscillator"), module("dac", "dac")],
        connections: vec![missing_port],
    };
    assert_eq!(builder.validate_patch(&portless).unwrap_err(), "Missing to_port in connection to dac");
}

#[test]
fn mode_and_oscillator_names_ignore_case() {
    let builder = ModularPatchBuilder::new(48000);
    assert_eq!(builder.parse_mode("Major"), Ok(Mode::Ionian));
    assert_eq!(builder.parse_mode("MINOR"), Ok(Mode::Aeolian));
    assert_eq!(builder.parse_mode("dorian"), Ok(Mode::Dorian));
    assert_eq!(builder.parse_mode("bebop").unwrap_err(), "Unknown mode: bebop");
    let mut osc = module("o", "oscillator");
    assert_eq!(builder.parse_oscillator_type(&osc), Ok(OscillatorType::Sine));
    osc.oscillator_type = Some("Saw".to_string());
    assert_eq!(builder.parse_oscillator_type(&osc), Ok(OscillatorType::Sawtooth));
    osc.oscillator_type = Some("noise".to_string());
    assert_eq!(builder.parse_oscillator_type(&osc).unwrap_err(), "Unknown oscillator type: noise");
}

#[test]
fn errors_render_their_messages() {
    assert_eq!(
        GraphCommandError::UnknownModule("osc".to_string()).message(),
        "unknown module: osc"
    );
    assert_eq!(
        ReloadError::Apply(GraphCommandError::AudioThreadStopped).message(),
        "reload diff failed to apply: audio thread has stopped; command not delivered"
    );
}

#[test]
fn routing_checks_ports_of_built_modules_but_not_the_dac() {
    let builder = ModularPatchBuilder::new(44_100);
    let ports = |inputs: &[&str], outputs: &[&str]| ModulePorts {
        inputs: inputs.iter().map(|p| p.to_string()).collect(),
        outputs: outputs.iter().map(|p| p.to_string()).collect(),
    };
    let route = |from: &str, from_port: &str, to: &str, to_port: &str| PatchConnection {
        from: from.to_string(),
        from_port: Some(from_port.to_string()),
        to: to.to_string(),
        to_port: Some(to_port.to_string()),
    };
    let built = vec![
        ("osc".to_string(), Some(ports(&["frequency"], &["audio"]))),
        ("vca".to_string(), Some(ports(&["audio", "cv"], &["audio"]))),
        ("dac".to_string(), None),
    ];
    let patch = Patch {
        modules: vec![module("osc", "oscillator"), module("vca", "vca"), module("dac", "dac")],
        connections: vec![route("osc", "audio", "vca", "audio"), route("vca", "audio", "dac", "left")],
    };
    let routing = builder.build_routing(&patch, &built).unwrap();
    assert_eq!(routing.len(), 2);
    assert_eq!((routing[1].from_module.as_str(), routing[1].to_port.as_str()), ("vca", "left"));

    let mut bad = Patch { modules: Vec::new(), connections: vec![route("vca", "audio", "osc", "audio")] };
    assert_eq!(
        builder.build_routing(&bad, &built).err(),
        Some("Module does not have input port 'audio'. Available: [\"frequency\"]".to_string())
    );
    bad.connections[0].to_port = None;
    assert_eq!(builder.build_routing(&bad, &built).err(), Some("Missing to_port".to_string()));
    bad.connections[0].from_port = Some("sync".to_string());
    bad.connections[0].to_port = Some("audio".to_string());
    assert_eq!(
        builder.build_routing(&bad, &built).err(),
        Some("Module does not have output port 'sync'. Available: [\"audio\"]".to_string())
    );
}
