use fugue::json::{Binary, Json, Number};
use fugue::rpc::{
    optional_port, ControlValue, RuntimeControlSnapshot, RuntimeFullSnapshot, RuntimeModuleInfo,
    RuntimeModuleSnapshot, RuntimePortInfo,
};
use fugue::runtime::{RuntimeConnectionInfo, RuntimeStatus};

/// 440.0 and 220.0 as exact binary numbers.
fn f440() -> Number {
    Number::Float(Binary { mantissa: 55, exponent: 3 })
}

fn f220() -> Number {
    Number::Float(Binary { mantissa: 55, exponent: 2 })
}

fn module(id: &str, module_type: &str, config: Json) -> RuntimeModuleSnapshot {
    RuntimeModuleSnapshot {
        info: RuntimeModuleInfo {
            id: id.to_string(),
            module_type: module_type.to_string(),
            config,
        },
        ports: RuntimePortInfo { inputs: Vec::new(), outputs: Vec::new() },
        controls: Vec::new(),
    }
}

fn empty_status() -> RuntimeStatus {
    RuntimeStatus { running: false, sample_rate: 48_000, module_count: 0, connection_count: 0 }
}

fn connection(from_port: &str, to_port: &str) -> RuntimeConnectionInfo {
    RuntimeConnectionInfo {
        from: "osc".into(),
        from_port: from_port.into(),
        to: "dac".into(),
        to_port: to_port.into(),
    }
}

fn member<'a>(config: &'a Json, key: &str) -> Option<&'a Json> {
    match config {
        Json::Object(members) => members.iter().find(|(k, _)| k == key).map(|(_, v)| v),
        _ => None,
    }
}

#[test]
fn to_invention_maps_modules_and_ports() {
    let snapshot = RuntimeFullSnapshot {
        status: empty_status(),
        modules: vec![
            module("osc", "oscillator", Json::Object(vec![("frequency".to_string(), Json::Number(f440()))])),
            module("dac", "dac", Json::Null),
        ],
        connections: vec![
            // Named ports survive.
            connection("audio", "audio"),
            // Empty port strings collapse to None.
            connection("", ""),
        ],
    };

    let invention = snapshot.to_invention();

    assert_eq!(invention.modules.len(), 2);
    assert_eq!(invention.modules[0].id, "osc");
    assert_eq!(invention.modules[0].module_type, "oscillator");
    assert_eq!(member(&invention.modules[0].config, "frequency"), Some(&Json::Number(f440())));

    assert_eq!(invention.connections.len(), 2);
    assert_eq!(invention.connections[0].from_port.as_deref(), Some("audio"));
    assert_eq!(invention.connections[0].to_port.as_deref(), Some("audio"));
    assert_eq!(invention.connections[1].from_port, None);
    assert_eq!(invention.connections[1].to_port, None);
}

#[test]
fn control_overrides_skips_unknown_values() {
    let mut osc = module("osc", "oscillator", Json::Null);
    osc.controls = vec![
        RuntimeControlSnapshot {
            key: "frequency".to_string(),
            value: Some(ControlValue::Number(f220())),
        },
        RuntimeControlSnapshot { key: "phase".to_string(), value: None },
    ];

    let snapshot = RuntimeFullSnapshot {
        status: empty_status(),
        modules: vec![osc],
        connections: Vec::new(),
    };

    let overrides = snapshot.control_overrides();
    assert_eq!(overrides.len(), 1);
    assert_eq!(overrides[0].0, "osc");
    assert_eq!(overrides[0].1, "frequency");
    assert_eq!(overrides[0].2, ControlValue::Number(f220()));
}

#[test]
fn snapshot_keeps_module_order_and_overrides_follow_it() {
    let mut a = module("a", "vca", Json::Null);
    a.controls = vec![RuntimeControlSnapshot { key: "level".to_string(), value: Some(ControlValue::Bool(true)) }];
    let mut b = module("b", "vca", Json::Null);
    b.controls = vec![RuntimeControlSnapshot {
        key: "mode".to_string(),
        value: Some(ControlValue::String("soft".to_string())),
    }];
    let snapshot = RuntimeFullSnapshot { status: empty_status(), modules: vec![a, b], connections: Vec::new() };
    let overrides = snapshot.control_overrides();
    assert_eq!(overrides.len(), 2);
    assert_eq!((overrides[0].0.as_str(), overrides[0].1.as_str()), ("a", "level"));
    assert_eq!((overrides[1].0.as_str(), overrides[1].1.as_str()), ("b", "mode"));
    let invention = snapshot.to_invention();
    assert_eq!(invention.modules[1].id, "b");
    assert!(invention.connections.is_empty());
}

#[test]
fn optional_port_maps_empty_to_none() {
    assert_eq!(optional_port(&String::new()), None);
    assert_eq!(optional_port(&"out".to_string()), Some("out".to_string()));
}
