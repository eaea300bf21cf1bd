use fugue::invention::{DevelopmentOutput, DevelopmentSpec, Invention, ModuleSpec};
use fugue::json::{Binary, Json, Number};
use fugue::reload::{changed_development_types, plan_reload, DevelopmentDefinitions};
use fugue::rpc::{ControlValue, RuntimeModuleInfo};
use fugue::runtime::RuntimeConnectionInfo;
use fugue::state::RuntimeState;

/// An `f64` as the exact binary number it is.
fn binary(x: f64) -> Binary {
    if x == 0.0 {
        return Binary { mantissa: 0, exponent: 0 };
    }
    let bits = x.to_bits();
    let negative = bits >> 63 == 1;
    let exponent_bits = ((bits >> 52) & 0x7ff) as i32;
    let fraction = (bits & ((1u64 << 52) - 1)) as i64;
    let (mut mantissa, mut exponent) = if exponent_bits == 0 {
        (fraction, -1074)
    } else {
        (fraction | (1i64 << 52), exponent_bits - 1075)
    };
    while mantissa % 2 == 0 {
        mantissa /= 2;
        exponent += 1;
    }
    Binary { mantissa: if negative { -mantissa } else { mantissa }, exponent }
}

fn to_json(v: &serde_json::Value) -> Json {
    match v {
        serde_json::Value::Null => Json::Null,
        serde_json::Value::Bool(b) => Json::Bool(*b),
        serde_json::Value::Number(n) => Json::Number(if let Some(u) = n.as_u64() {
            Number::PosInt(u)
        } else if let Some(i) = n.as_i64() {
            Number::NegInt(i)
        } else {
            Number::Float(binary(n.as_f64().unwrap()))
        }),
        serde_json::Value::String(s) => Json::String(s.clone()),
        serde_json::Value::Array(items) => Json::Array(items.iter().map(to_json).collect()),
        serde_json::Value::Object(map) => {
            Json::Object(map.iter().map(|(k, v)| (k.clone(), to_json(v))).collect())
        }
    }
}

fn json(text: &str) -> Json {
    to_json(&serde_json::from_str(text).expect("test JSON parses"))
}

fn empty_invention() -> Invention {
    Invention {
        version: "1.0.0".to_string(),
        title: None,
        description: None,
        developments: Vec::new(),
        assets: Vec::new(),
        modules: Vec::new(),
        connections: Vec::new(),
        inputs: Vec::new(),
        outputs: Vec::new(),
        controls: Vec::new(),
        source_path: None,
    }
}

fn module(id: &str, module_type: &str, config: Json) -> ModuleSpec {
    ModuleSpec { id: id.to_string(), module_type: module_type.to_string(), config }
}

fn info(id: &str, module_type: &str, config: Json) -> RuntimeModuleInfo {
    RuntimeModuleInfo { id: id.to_string(), module_type: module_type.to_string(), config }
}

fn output(name: &str, from: &str, from_port: &str) -> DevelopmentOutput {
    DevelopmentOutput {
        name: name.to_string(),
        from: from.to_string(),
        from_port: from_port.to_string(),
    }
}

fn inline_development(name: &str, definition: Invention) -> DevelopmentSpec {
    DevelopmentSpec { name: name.to_string(), path: None, definition: Some(Box::new(definition)) }
}

/// A document with an `inner` development (one oscillator at `frequency`)
/// and an `outer` one that instantiates `inner`.
fn nested_document(frequency: f64) -> Invention {
    let mut inner = empty_invention();
    inner.modules.push(module(
        "o",
        "oscillator",
        Json::Object(vec![("frequency".to_string(), Json::Number(Number::Float(binary(frequency))))]),
    ));
    inner.outputs.push(output("audio", "o", "audio"));
    let mut outer = empty_invention();
    outer.modules.push(module("i", "inner", Json::Null));
    outer.outputs.push(output("audio", "i", "audio"));
    let mut document = empty_invention();
    document.developments.push(inline_development("inner", inner));
    document.developments.push(inline_development("outer", outer));
    document.modules.push(module("dac", "dac", Json::Null));
    document
}

#[test]
fn changed_development_types_are_transitive() {
    let previous = DevelopmentDefinitions::resolve(&nested_document(300.0), &Vec::new()).unwrap();
    let new = DevelopmentDefinitions::resolve(&nested_document(320.0), &Vec::new()).unwrap();

    let changed = changed_development_types(&previous, &new);
    assert!(changed.contains(&"inner".to_string()));
    // outer's own definition is identical, but it instantiates inner.
    assert!(changed.contains(&"outer".to_string()));

    let again = DevelopmentDefinitions::resolve(&nested_document(300.0), &Vec::new()).unwrap();
    let unchanged = changed_development_types(&previous, &again);
    assert!(unchanged.is_empty());
}

fn plan_for(config: Json, has_control: bool) -> fugue::reload::ReloadPlan {
    let current = vec![info("osc", "oscillator", json(r#"{ "waveform": "sine", "frequency": 440.0 }"#))];
    let mut new = empty_invention();
    new.modules.push(module("osc", "oscillator", config));
    let controls = if has_control {
        vec![("osc".to_string(), vec!["waveform".to_string(), "frequency".to_string()])]
    } else {
        Vec::new()
    };
    plan_reload(&current, &Vec::new(), &new, &Vec::new(), &controls).unwrap()
}

#[test]
fn config_deltas_that_cannot_be_controls_force_a_swap() {
    // A scalar delta on an exposed control key stays live.
    let plan = plan_for(json(r#"{ "waveform": "sine", "frequency": 220.0 }"#), true);
    assert!(plan.swapped.is_empty());
    assert_eq!(plan.control_updates.len(), 1);

    // The module does not expose the changed key as a control.
    let plan = plan_for(json(r#"{ "waveform": "sine", "frequency": 220.0 }"#), false);
    assert_eq!(plan.swapped.len(), 1);
    assert!(plan.control_updates.is_empty());

    // A removed key means "back to the default", which needs a rebuild.
    let plan = plan_for(json(r#"{ "waveform": "sine" }"#), true);
    assert_eq!(plan.swapped.len(), 1);

    // A non-scalar value cannot be a control write.
    let plan = plan_for(json(r#"{ "waveform": "sine", "frequency": [220.0] }"#), true);
    assert_eq!(plan.swapped.len(), 1);
}

#[test]
fn live_control_update_carries_module_key_and_value() {
    let plan = plan_for(json(r#"{ "waveform": "sine", "frequency": 220.0 }"#), true);
    assert_eq!(plan.control_updates.len(), 1);
    assert_eq!(plan.control_updates[0].0, "osc");
    assert_eq!(plan.control_updates[0].1, "frequency");
    assert_eq!(plan.control_updates[0].2, ControlValue::Number(Number::Float(binary(220.0))));
    assert_eq!(plan.refreshed_configs.len(), 1);
    assert_eq!(plan.refreshed_configs[0].0, "osc");
    let report = plan.report();
    assert_eq!(report.controls_updated, vec!["osc.frequency".to_string()]);
    assert!(report.swapped.is_empty());
    // A module updated live keeps its state, so it counts as unchanged.
    assert_eq!(report.unchanged, 1);
}

#[test]
fn null_and_empty_configs_are_equivalent() {
    let current = vec![info("dac", "dac", Json::Null)];
    let mut new = empty_invention();
    new.modules.push(module("dac", "dac", json("{}")));

    let plan = plan_reload(&current, &Vec::new(), &new, &Vec::new(), &Vec::new()).unwrap();
    assert_eq!(plan.unchanged, vec!["dac".to_string()]);
    assert!(plan.swapped.is_empty());
}

#[test]
fn connection_diff_skips_endpoints_of_removed_modules() {
    let current = vec![info("osc", "oscillator", Json::Null), info("dac", "dac", Json::Null)];
    let current_connections = vec![RuntimeConnectionInfo {
        from: "osc".to_string(),
        from_port: "audio".to_string(),
        to: "dac".to_string(),
        to_port: "audio".to_string(),
    }];
    let mut new = empty_invention();
    new.modules.push(module("dac", "dac", Json::Null));

    let plan = plan_reload(&current, &current_connections, &new, &Vec::new(), &Vec::new()).unwrap();

    assert_eq!(plan.removed, vec!["osc".to_string()]);
    // remove_module cleans the connection up; no explicit disconnect planned.
    assert!(plan.removed_connections.is_empty());
    assert!(plan.added_connections.is_empty());
    let report = plan.report();
    assert_eq!(report.removed, vec!["osc".to_string()]);
    assert_eq!(report.connections_removed, 0);
    assert_eq!(report.unchanged, 1);
}

#[test]
fn changed_type_swaps_its_instances_and_adds_new_modules() {
    let current = vec![info("o", "inner", Json::Null)];
    let mut new = empty_invention();
    new.modules.push(module("o", "inner", Json::Null));
    new.modules.push(module("dac", "dac", Json::Null));
    let plan = plan_reload(&current, &Vec::new(), &new, &vec!["inner".to_string()], &Vec::new()).unwrap();
    assert_eq!(plan.swapped.len(), 1);
    assert_eq!(plan.swapped[0].id, "o");
    assert_eq!(plan.added.len(), 1);
    assert_eq!(plan.added[0].id, "dac");
    assert!(plan.unchanged.is_empty());
}

#[test]
fn reloading_the_running_document_plans_nothing() {
    let current = vec![
        info("osc", "oscillator", json(r#"{ "frequency": 440.0 }"#)),
        info("dac", "dac", Json::Null),
    ];
    let connections = vec![RuntimeConnectionInfo {
        from: "osc".to_string(),
        from_port: "audio".to_string(),
        to: "dac".to_string(),
        to_port: "audio".to_string(),
    }];
    let mut new = empty_invention();
    new.modules.push(module("osc", "oscillator", json(r#"{ "frequency": 440.0 }"#)));
    new.modules.push(module("dac", "dac", Json::Null));
    new.connections.push(fugue::invention::InventionConnection {
        from: "osc".to_string(),
        to: "dac".to_string(),
        from_port: Some("audio".to_string()),
        to_port: Some("audio".to_string()),
    });
    let controls = vec![("osc".to_string(), vec!["frequency".to_string()])];
    let plan = plan_reload(&current, &connections, &new, &Vec::new(), &controls).unwrap();
    assert!(plan.added.is_empty() && plan.removed.is_empty() && plan.swapped.is_empty());
    assert!(plan.control_updates.is_empty() && plan.refreshed_configs.is_empty());
    assert!(plan.added_connections.is_empty() && plan.removed_connections.is_empty());
    assert_eq!(plan.unchanged, vec!["osc".to_string(), "dac".to_string()]);
}

#[test]
fn unchanged_definitions_change_no_type() {
    let previous = DevelopmentDefinitions::resolve(&nested_document(300.0), &Vec::new()).unwrap();
    let same = DevelopmentDefinitions::resolve(&nested_document(300.0), &Vec::new()).unwrap();
    assert!(changed_development_types(&same, &previous).is_empty());
}

#[test]
fn recorded_control_updates_are_not_detected_again() {
    let mut state = RuntimeState::new(48_000);
    state.insert_module_info(
        &"osc".to_string(),
        &"oscillator".to_string(),
        &json(r#"{ "waveform": "sine", "frequency": 440.0 }"#),
    );
    let mut new = empty_invention();
    new.modules.push(module("osc", "oscillator", json(r#"{ "waveform": "sine", "frequency": 220.0 }"#)));
    let controls = vec![("osc".to_string(), vec!["frequency".to_string()])];
    let plan = plan_reload(&state.modules, &state.connections, &new, &Vec::new(), &controls).unwrap();
    assert_eq!(plan.control_updates.len(), 1);
    state.refresh_configs(&plan.refreshed_configs);
    assert_eq!(state.modules[0].config, json(r#"{ "waveform": "sine", "frequency": 220.0 }"#));
    let again = plan_reload(&state.modules, &state.connections, &new, &Vec::new(), &controls).unwrap();
    assert!(again.control_updates.is_empty());
    assert!(again.swapped.is_empty());
    assert_eq!(again.unchanged, vec!["osc".to_string()]);
}

#[test]
fn inline_definitions_resolve_without_files() {
    let resolved = DevelopmentDefinitions::resolve(&nested_document(300.0), &Vec::new()).unwrap();
    let names: Vec<&str> = resolved.definitions.iter().map(|(n, _)| n.as_str()).collect();
    assert_eq!(names, vec!["inner", "outer"]);
}

#[test]
fn a_development_without_a_source_is_refused_by_name() {
    let mut document = nested_document(300.0);
    document.developments.push(DevelopmentSpec { name: "lead".to_string(), path: None, definition: None });
    match DevelopmentDefinitions::resolve(&document, &Vec::new()) {
        Err(fugue::builder::LoadError::Invalid(m)) => {
            assert_eq!(m, "Development 'lead' must set either 'path' or 'definition'")
        }
        _ => panic!("a development without a source is refused"),
    }
}

#[test]
fn a_path_development_is_asked_for_then_resolved() {
    let mut document = empty_invention();
    document.developments.push(DevelopmentSpec {
        name: "lead".to_string(),
        path: Some("/lib/lead.json".to_string()),
        definition: None,
    });
    let wanted = match DevelopmentDefinitions::resolve(&document, &Vec::new()) {
        Err(fugue::builder::LoadError::NeedsFile(path)) => path,
        _ => panic!("the file is asked for"),
    };
    assert_eq!(wanted, "/lib/lead.json");
    let loaded = vec![(wanted, empty_invention())];
    let resolved = DevelopmentDefinitions::resolve(&document, &loaded).unwrap();
    assert_eq!(resolved.definitions.len(), 1);
    assert_eq!(resolved.definitions[0].0, "lead");
}
