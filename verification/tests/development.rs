use fugue::development::{
    development_config_entries, development_config_value, lookup_control, plan_development, unique_port_names,
    validate_input_port, validate_output_port, AliasedControl, ModuleEntry,
};
use fugue::invention::{DevelopmentControl, DevelopmentInput, DevelopmentOutput, Invention, ModuleSpec};
use fugue::json::{Json, Number};
use fugue::rpc::ControlValue;

fn s(text: &str) -> String {
    text.to_string()
}

fn names(list: &[&str]) -> Vec<String> {
    list.iter().map(|n| s(n)).collect()
}

fn entry(id: &str, name: &str, inputs: &[&str], outputs: &[&str]) -> ModuleEntry {
    ModuleEntry { id: s(id), name: s(name), inputs: names(inputs), outputs: names(outputs) }
}

fn input(name: &str, to: &str, to_port: &str) -> DevelopmentInput {
    DevelopmentInput { name: s(name), to: s(to), to_port: s(to_port) }
}

fn output(name: &str, from: &str, from_port: &str) -> DevelopmentOutput {
    DevelopmentOutput { name: s(name), from: s(from), from_port: s(from_port) }
}

/// The fan-out development: one exposed input feeding two VCAs, each
/// exposed as its own output.
fn fanout() -> Invention {
    Invention {
        version: s("1.0.0"),
        title: Some(s("fanout")),
        description: None,
        developments: Vec::new(),
        assets: Vec::new(),
        modules: vec![
            ModuleSpec { id: s("full"), module_type: s("vca"), config: Json::Null },
            ModuleSpec { id: s("half"), module_type: s("vca"), config: Json::Null },
        ],
        connections: Vec::new(),
        inputs: vec![input("signal", "full", "audio"), input("signal", "half", "audio")],
        outputs: vec![output("full", "full", "audio"), output("half", "half", "audio")],
        controls: Vec::new(),
        source_path: None,
    }
}

fn vcas() -> Vec<ModuleEntry> {
    vec![
        entry("full", "vca", &["audio", "cv"], &["audio"]),
        entry("half", "vca", &["audio", "cv"], &["audio"]),
    ]
}

#[test]
fn development_fans_out_one_input_to_every_target() {
    let routes = plan_development(&fanout(), &vcas(), &Vec::new()).unwrap();
    assert_eq!(routes.input_ports, names(&["signal"]));
    assert_eq!(routes.output_ports, names(&["full", "half"]));
    assert_eq!(routes.input_routes.len(), 1);
    let targets: Vec<(usize, usize)> =
        routes.input_routes[0].iter().map(|r| (r.module_index, r.port_index)).collect();
    assert_eq!(targets, vec![(0, 0), (1, 0)]);
    assert_eq!(routes.outputs.len(), 2);
    assert_eq!((routes.outputs[1].name.as_str(), routes.outputs[1].module_index), ("half", 1));
}

#[test]
fn development_errors_name_the_missing_piece() {
    let mut def = fanout();
    def.inputs.push(input("cv", "ghost", "cv"));
    assert_eq!(
        plan_development(&def, &vcas(), &Vec::new()).err(),
        Some(s("Unknown input target module: ghost"))
    );

    let mut def = fanout();
    def.inputs.push(input("fm", "full", "fm"));
    assert_eq!(
        plan_development(&def, &vcas(), &Vec::new()).err(),
        Some(s("Module 'vca' does not have input port 'fm'. Available: [\"audio\", \"cv\"]"))
    );

    let mut def = fanout();
    def.outputs.push(output("sync", "half", "sync"));
    assert_eq!(
        plan_development(&def, &vcas(), &Vec::new()).err(),
        Some(s("Module 'vca' does not have output port 'sync'. Available: [\"audio\"]"))
    );

    let mut def = fanout();
    def.controls.push(DevelopmentControl { key: s("gain"), module: s("full"), control: s("level") });
    assert_eq!(
        plan_development(&def, &vcas(), &Vec::new()).err(),
        Some(s("Unknown control module: full"))
    );
    let surfaces = vec![(s("full"), names(&["cv"]))];
    assert_eq!(
        plan_development(&def, &vcas(), &surfaces).err(),
        Some(s("Unknown control 'level' on module 'full'"))
    );
    let surfaces = vec![(s("full"), names(&["cv", "level"]))];
    let routes = plan_development(&def, &vcas(), &surfaces).unwrap();
    assert_eq!(routes.controls.len(), 1);
    assert_eq!(routes.controls[0].module_id, "full");
}

#[test]
fn port_checks_list_available_ports() {
    let osc = entry("o", "oscillator", &["fm"], &["audio", "sync"]);
    assert_eq!(validate_input_port(&osc, &s("fm")), Ok(()));
    assert_eq!(
        validate_input_port(&osc, &s("audio")),
        Err(s("Module 'oscillator' does not have input port 'audio'. Available: [\"fm\"]"))
    );
    assert_eq!(validate_output_port(&osc, &s("sync")), Ok(()));
    assert_eq!(
        validate_output_port(&osc, &s("cv")),
        Err(s("Module 'oscillator' does not have output port 'cv'. Available: [\"audio\", \"sync\"]"))
    );
    assert_eq!(unique_port_names(&names(&["a", "b", "a", "c", "b"])), names(&["a", "b", "c"]));
}

#[test]
fn development_config_sets_scalar_controls() {
    let name = s("voice");
    assert_eq!(development_config_entries(&name, &Json::Null).map(|v| v.len()), Ok(0));
    let config = Json::Object(vec![(s("gain"), Json::Number(Number::PosInt(2)))]);
    let entries = development_config_entries(&name, &config).unwrap();
    assert_eq!(entries.len(), 1);
    assert_eq!(entries[0].0, "gain");
    assert_eq!(
        development_config_entries(&name, &Json::Bool(true)).err(),
        Some(s("Development 'voice' config must be an object"))
    );
    assert_eq!(
        development_config_value(&name, &s("gain"), &Json::Number(Number::PosInt(2))),
        Ok(ControlValue::Number(Number::PosInt(2)))
    );
    assert_eq!(
        development_config_value(&name, &s("mode"), &Json::Array(Vec::new())),
        Err(s("Development 'voice' config key 'mode' must be a number, bool, or string"))
    );
}

#[test]
fn exposed_controls_resolve_to_their_surface() {
    let controls = vec![
        AliasedControl { key: s("gain"), module_id: s("full"), control: s("level") },
        AliasedControl { key: s("tone"), module_id: s("filter"), control: s("cutoff") },
    ];
    let surfaces = vec![(s("half"), names(&["level"])), (s("full"), names(&["level"]))];
    assert_eq!(lookup_control(&controls, &surfaces, &s("gain")), Ok((0, 1)));
    assert_eq!(lookup_control(&controls, &surfaces, &s("tone")), Err(s("Unknown control module: filter")));
    assert_eq!(lookup_control(&controls, &surfaces, &s("pan")), Err(s("Unknown control: pan")));
}
