use fugue::assets::{check_asset, json_pointer, resolve_asset_refs, resolve_module_assets};
use fugue::invention::{Invention, ModuleSpec};
use fugue::json::{Json, Number};

fn to_json(v: &serde_json::Value) -> Json {
    match v {
        serde_json::Value::Null => Json::Null,
        serde_json::Value::Bool(b) => Json::Bool(*b),
        serde_json::Value::Number(n) => Json::Number(if let Some(u) = n.as_u64() {
            Number::PosInt(u)
        } else {
            Number::NegInt(n.as_i64().expect("integer test values"))
        }),
        serde_json::Value::String(s) => Json::String(s.clone()),
        serde_json::Value::Array(items) => Json::Array(items.iter().map(to_json).collect()),
        serde_json::Value::Object(map) => {
            Json::Object(map.iter().map(|(k, v)| (k.clone(), to_json(v))).collect())
        }
    }
}

fn json(text: &str) -> Json {
    to_json(&serde_json::from_str(text).expect("test JSON parses"))
}

fn assets(list: &[(&str, &str)]) -> Vec<(String, Json)> {
    list.iter().map(|(name, text)| (name.to_string(), json(text))).collect()
}

#[test]
fn asset_ref_errors_on_missing_pointer() {
    let assets = assets(&[("score", r#"{"cells": []}"#)]);
    let error = resolve_asset_refs(&json(r#"{ "$asset": "score", "path": "/missing" }"#), &assets)
        .unwrap_err();
    assert!(error.contains("does not contain JSON Pointer '/missing'"));
}

#[test]
fn asset_ref_replaces_whole_value_and_pointer_target() {
    let assets = assets(&[("score", r#"{"cells": [[1, 2], [3]], "tempo": 90}"#)]);
    let config = json(
        r#"{ "whole": { "$asset": "score" },
             "tempo": { "$asset": "score", "path": "/tempo" },
             "nested": [ { "$asset": "score", "path": "/cells/1/0" } ],
             "plain": 7 }"#,
    );
    let resolved = resolve_asset_refs(&config, &assets).unwrap();
    assert_eq!(
        resolved,
        json(
            r#"{ "whole": {"cells": [[1, 2], [3]], "tempo": 90},
                 "tempo": 90,
                 "nested": [ 3 ],
                 "plain": 7 }"#
        )
    );
}

#[test]
fn asset_ref_errors_name_each_problem() {
    let assets = assets(&[("score", r#"{"cells": []}"#)]);
    let unknown = resolve_asset_refs(&json(r#"{ "$asset": "other" }"#), &assets).unwrap_err();
    assert_eq!(unknown, "Unknown asset reference 'other'");
    let not_string = resolve_asset_refs(&json(r#"{ "$asset": 3 }"#), &assets).unwrap_err();
    assert_eq!(not_string, "$asset must be a string");
    let extra = resolve_asset_refs(&json(r#"{ "$asset": "score", "x": 1 }"#), &assets).unwrap_err();
    assert_eq!(extra, "asset reference objects may only contain '$asset' and 'path'");
    let relative = resolve_asset_refs(&json(r#"{ "$asset": "score", "path": "cells" }"#), &assets).unwrap_err();
    assert_eq!(relative, "asset reference path 'cells' must be a JSON Pointer starting with '/'");
    let path_type = resolve_asset_refs(&json(r#"{ "$asset": "score", "path": 1 }"#), &assets).unwrap_err();
    assert_eq!(path_type, "asset reference path must be a string");
}

#[test]
fn json_pointer_follows_escapes_and_indexes() {
    let doc = json(r#"{ "a/b": { "m~n": [10, 20, 30] }, "": 5 }"#);
    assert_eq!(json_pointer(&doc, "/a~1b/m~0n/2"), Some(json("30")));
    assert_eq!(json_pointer(&doc, "/"), Some(json("5")));
    assert_eq!(json_pointer(&doc, ""), Some(json(r#"{ "a/b": { "m~n": [10, 20, 30] }, "": 5 }"#)));
    assert_eq!(json_pointer(&doc, "/a~1b/m~0n/3"), None);
    assert_eq!(json_pointer(&doc, "/a~1b/m~0n/01"), None);
    assert_eq!(json_pointer(&doc, "/missing"), None);
}

#[test]
fn score_assets_are_validated_by_declared_schema() {
    let name = "melody".to_string();
    let from = "melody.json".to_string();
    let good = json(r#"{ "schema": "fugue.score.v1", "cells": [[0]] }"#);
    assert_eq!(check_asset(&name, &from, &good), Ok(()));
    let bad = json(r#"{ "schema": "fugue.score.v1", "cells": [] }"#);
    let error = check_asset(&name, &from, &bad).unwrap_err();
    assert!(error.starts_with("Invalid score asset 'melody' from 'melody.json': "), "{error}");
    // Without the schema marker a value is just data.
    assert_eq!(check_asset(&name, &from, &json(r#"{ "cells": [] }"#)), Ok(()));
}

#[test]
fn module_configs_resolve_in_document_order() {
    let document = Invention {
        version: "1.0.0".to_string(),
        title: None,
        description: None,
        developments: Vec::new(),
        assets: Vec::new(),
        modules: vec![
            ModuleSpec {
                id: "seq".to_string(),
                module_type: "step_sequencer".to_string(),
                config: json(r#"{ "steps": { "$asset": "score", "path": "/cells/0" } }"#),
            },
            ModuleSpec { id: "dac".to_string(), module_type: "dac".to_string(), config: Json::Null },
        ],
        connections: Vec::new(),
        inputs: Vec::new(),
        outputs: Vec::new(),
        controls: Vec::new(),
        source_path: None,
    };
    let assets = assets(&[("score", r#"{"cells": [[60, null]]}"#)]);
    let resolved = resolve_module_assets(document, &assets).unwrap();
    assert_eq!(resolved.modules[0].config, json(r#"{ "steps": [60, null] }"#));
    assert_eq!(resolved.modules[1].config, Json::Null);
}
