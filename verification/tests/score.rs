use fugue::assets::declares_score_schema;
use fugue::json::{Binary, Json, Number};
use fugue::score::validate_score;

/// An `f64` as the exact binary number it is.
fn binary(x: f64) -> Binary {
    if x == 0.0 {
        return Binary { mantissa: 0, exponent: 0 };
    }
    let bits = x.to_bits();
    let negative = bits >> 63 == 1;
    let exponent_bits = ((bits >> 52) & 0x7ff) as i32;
    let fraction = (bits & ((1u64 << 52) - 1)) as i64;
    let (mut mantissa, mut exponent) = if exponent_bits == 0 {
        (fraction, -1074)
    } else {
        (fraction | (1i64 << 52), exponent_bits - 1075)
    };
    while mantissa % 2 == 0 {
        mantissa /= 2;
        exponent += 1;
    }
    Binary { mantissa: if negative { -mantissa } else { mantissa }, exponent }
}

fn to_json(v: &serde_json::Value) -> Json {
    match v {
        serde_json::Value::Null => Json::Null,
        serde_json::Value::Bool(b) => Json::Bool(*b),
        serde_json::Value::Number(n) => Json::Number(if let Some(u) = n.as_u64() {
            Number::PosInt(u)
        } else if let Some(i) = n.as_i64() {
            Number::NegInt(i)
        } else {
            Number::Float(binary(n.as_f64().unwrap()))
        }),
        serde_json::Value::String(s) => Json::String(s.clone()),
        serde_json::Value::Array(items) => Json::Array(items.iter().map(to_json).collect()),
        serde_json::Value::Object(map) => {
            Json::Object(map.iter().map(|(k, v)| (k.clone(), to_json(v))).collect())
        }
    }
}

fn json(text: &str) -> Json {
    to_json(&serde_json::from_str(text).expect("test JSON parses"))
}

#[test]
fn full_metadata_score_validates() {
    let value = json(
        r#"{
        "schema": "fugue.score.v1",
        "title": "The Flow of Water",
        "composer": "Grant Damron",
        "key": "Ab major",
        "tempo": 120.0,
        "time_signature": { "beats_per_measure": 4, "beat_unit": 4 },
        "base_note_hint": 48,
        "rhythm_grid": "16th_note",
        "cells": [
            [ { "note": 0 }, { "held": true }, { "note": 7, "gate": 0.8 }, null ],
            [ 4, { "note": null }, { "note": -12 } ]
        ]
    }"#,
    );
    validate_score(&value).expect("full metadata score validates");
}

#[test]
fn single_cell_score_validates() {
    let value = json(r#"{ "cells": [[ { "note": 0 }, null, 5, { "held": true } ]] }"#);
    validate_score(&value).expect("single-cell score validates");
}

#[test]
fn rejects_non_object() {
    let err = validate_score(&json("[1, 2, 3]")).unwrap_err();
    assert!(err.contains("must be a JSON object"), "{err}");
}

#[test]
fn rejects_unknown_schema_version() {
    let value = json(r#"{ "schema": "fugue.score.v2", "cells": [[ { "note": 0 } ]] }"#);
    let err = validate_score(&value).unwrap_err();
    assert!(err.contains("unsupported score schema"), "{err}");
}

#[test]
fn rejects_missing_cells() {
    let value = json(r#"{ "title": "Empty", "base_note_hint": 60 }"#);
    let err = validate_score(&value).unwrap_err();
    assert!(err.contains("non-empty 'cells' array"), "{err}");
}

#[test]
fn rejects_empty_cells() {
    let err = validate_score(&json(r#"{ "cells": [] }"#)).unwrap_err();
    assert!(err.contains("cells must not be empty"), "{err}");
}

#[test]
fn rejects_empty_inner_cell() {
    let err = validate_score(&json(r#"{ "cells": [[]] }"#)).unwrap_err();
    assert!(err.contains("cells[0] must not be empty"), "{err}");
}

#[test]
fn rejects_non_integer_note() {
    let err = validate_score(&json(r#"{ "cells": [[ { "note": "C4" } ]] }"#)).unwrap_err();
    assert!(err.contains("step.note must be an integer or null"), "{err}");
}

#[test]
fn rejects_out_of_range_note() {
    let err = validate_score(&json(r#"{ "cells": [[ { "note": 500 } ]] }"#)).unwrap_err();
    assert!(err.contains("out of range"), "{err}");
}

#[test]
fn rejects_out_of_range_base_note() {
    let err = validate_score(&json(r#"{ "base_note_hint": 200, "cells": [[ 0 ]] }"#)).unwrap_err();
    assert!(err.contains("base_note_hint must be between 0 and 127"), "{err}");
}

#[test]
fn rejects_gate_above_one() {
    let err = validate_score(&json(r#"{ "cells": [[ { "note": 0, "gate": 1.5 } ]] }"#)).unwrap_err();
    assert!(err.contains("step.gate must be between 0 and 1"), "{err}");
}

#[test]
fn rejects_held_with_extra_keys() {
    let value = json(r#"{ "cells": [[ { "held": true, "note": 0 } ]] }"#);
    let err = validate_score(&value).unwrap_err();
    assert!(err.contains("held steps may only contain"), "{err}");
}

#[test]
fn rejects_non_positive_tempo() {
    let err = validate_score(&json(r#"{ "tempo": 0.0, "cells": [[ 0 ]] }"#)).unwrap_err();
    assert!(err.contains("tempo must be a positive number"), "{err}");
}

#[test]
fn rejects_zero_beat_unit() {
    let value = json(
        r#"{
        "time_signature": { "beats_per_measure": 4, "beat_unit": 0 },
        "cells": [[ 0 ]]
    }"#,
    );
    let err = validate_score(&value).unwrap_err();
    assert!(err.contains("beat_unit must be greater than 0"), "{err}");
}

#[test]
fn cell_error_reports_index() {
    let value = json(r#"{ "cells": [ [ { "note": 0 } ], [ { "note": "x" } ] ] }"#);
    let err = validate_score(&value).unwrap_err();
    assert!(err.contains("cells[1]"), "{err}");
}

#[test]
fn rejects_unordered_tempo_map() {
    let value = json(
        r#"{
        "tempo_map": [ { "at_step": 10, "bpm": 60.0 }, { "at_step": 10, "bpm": 90.0 } ],
        "cells": [[ 0 ]]
    }"#,
    );
    let err = validate_score(&value).unwrap_err();
    assert!(err.contains("must be greater than the previous entry"), "{err}");
}

#[test]
fn rejects_non_positive_tempo_map_bpm() {
    let value = json(
        r#"{
        "tempo_map": [ { "at_step": 0, "bpm": 0.0 } ],
        "cells": [[ 0 ]]
    }"#,
    );
    let err = validate_score(&value).unwrap_err();
    assert!(err.contains("tempo_map[0].bpm must be a positive number"), "{err}");
}

// --- further cases ---

#[test]
fn score_errors_are_exact_messages() {
    assert_eq!(
        validate_score(&json(r#"{ "cells": [[ 300 ]] }"#)).unwrap_err(),
        "score.cells[0]: step.note 300 out of range (must fit in -128..=127)"
    );
    assert_eq!(
        validate_score(&json(r#"{ "schema": 3, "cells": [[ 0 ]] }"#)).unwrap_err(),
        "score.schema must be a string"
    );
    assert_eq!(
        validate_score(&json(r#"{ "schema": "fugue.score.v2", "cells": [[ 0 ]] }"#)).unwrap_err(),
        "unsupported score schema 'fugue.score.v2', expected 'fugue.score.v1'"
    );
    assert_eq!(
        validate_score(&json(r#"{ "title": 5, "cells": [[ 0 ]] }"#)).unwrap_err(),
        "score.title must be a string"
    );
    assert_eq!(
        validate_score(&json(r#"{ "tempo": "fast", "cells": [[ 0 ]] }"#)).unwrap_err(),
        "score.tempo must be a number"
    );
    assert_eq!(
        validate_score(&json(r#"{ "base_note_hint": 1.5, "cells": [[ 0 ]] }"#)).unwrap_err(),
        "score.base_note_hint must be an integer"
    );
    assert_eq!(
        validate_score(&json(r#"{ "time_signature": { "beat_unit": 4 }, "cells": [[ 0 ]] }"#)).unwrap_err(),
        "score.time_signature.beats_per_measure is required"
    );
    assert_eq!(
        validate_score(&json(r#"{ "cells": {} }"#)).unwrap_err(),
        "score.cells must be an array"
    );
    assert_eq!(
        validate_score(&json(r#"{ "cells": [ 5 ] }"#)).unwrap_err(),
        "score.cells[0] must be an array of steps"
    );
    assert_eq!(
        validate_score(&json(r#"{ "cells": [[ "x" ]] }"#)).unwrap_err(),
        "score.cells[0]: each step must be null, an integer, or an object"
    );
    assert_eq!(
        validate_score(&json(r#"{ "cells": [[ { "held": 1 } ]] }"#)).unwrap_err(),
        "score.cells[0]: step.held must be a boolean"
    );
    assert_eq!(
        validate_score(&json(r#"{ "cells": [[ { "note": 0, "amplitude": "loud" } ]] }"#)).unwrap_err(),
        "score.cells[0]: step.amplitude must be a number"
    );
}

#[test]
fn tempo_map_entries_are_checked_in_order() {
    assert_eq!(
        validate_score(&json(r#"{ "tempo_map": [ 1 ], "cells": [[ 0 ]] }"#)).unwrap_err(),
        "score.tempo_map[0] must be an object"
    );
    assert_eq!(
        validate_score(&json(r#"{ "tempo_map": [ { "at_step": -1, "bpm": 60 } ], "cells": [[ 0 ]] }"#)).unwrap_err(),
        "score.tempo_map[0].at_step must be a non-negative integer"
    );
    assert_eq!(
        validate_score(&json(r#"{ "tempo_map": [ { "at_step": 0, "bpm": "x" } ], "cells": [[ 0 ]] }"#)).unwrap_err(),
        "score.tempo_map[0].bpm must be a number"
    );
    assert_eq!(
        validate_score(&json(
            r#"{ "tempo_map": [ { "at_step": 4, "bpm": 60 }, { "at_step": 2, "bpm": 60 } ], "cells": [[ 0 ]] }"#
        ))
        .unwrap_err(),
        "score.tempo_map[1].at_step (2) must be greater than the previous entry (4)"
    );
    assert_eq!(
        validate_score(&json(r#"{ "tempo_map": [ { "at_step": 0, "bpm": 60, "ramp": 0 } ], "cells": [[ 0 ]] }"#)).unwrap_err(),
        "score.tempo_map[0].ramp must be at least 1 step"
    );
    validate_score(&json(
        r#"{ "tempo_map": [ { "at_step": 0, "bpm": 60 }, { "at_step": 8, "bpm": 72.5, "ramp": 4 } ], "cells": [[ 0 ]] }"#,
    ))
    .expect("ascending map with a ramp validates");
}

#[test]
fn gate_and_amplitude_bounds_are_inclusive() {
    validate_score(&json(r#"{ "cells": [[ { "note": 0, "gate": 1.0, "amplitude": 0.0 } ]] }"#))
        .expect("bounds are inclusive");
    validate_score(&json(r#"{ "cells": [[ { "note": 0, "gate": 0.25 } ]] }"#)).expect("a quarter gate");
    assert_eq!(
        validate_score(&json(r#"{ "cells": [[ { "note": 0, "gate": -0.5 } ]] }"#)).unwrap_err(),
        "score.cells[0]: step.gate must be between 0 and 1"
    );
    assert_eq!(
        validate_score(&json(r#"{ "cells": [[ { "note": 0, "amplitude": 2 } ]] }"#)).unwrap_err(),
        "score.cells[0]: step.amplitude must be between 0 and 1"
    );
}

#[test]
fn pedal_lanes_are_validated_like_cells() {
    validate_score(&json(r#"{ "cells": [[ 0 ]], "pedal": [[ { "note": 0 }, { "held": true }, null ]] }"#))
        .expect("a pedal lane validates");
    assert_eq!(
        validate_score(&json(r#"{ "cells": [[ 0 ]], "pedal": [[]] }"#)).unwrap_err(),
        "score.pedal[0] must not be empty"
    );
    assert_eq!(
        validate_score(&json(r#"{ "cells": [[ 0 ]], "pedal": 1 }"#)).unwrap_err(),
        "score.pedal must be an array of lanes"
    );
}

#[test]
fn score_schema_declarations_are_recognized() {
    assert!(declares_score_schema(&json(r#"{ "schema": "fugue.score.v1", "cells": [] }"#)));
    assert!(!declares_score_schema(&json(r#"{ "schema": "other" }"#)));
    assert!(!declares_score_schema(&json(r#"{ "cells": [] }"#)));
    assert!(!declares_score_schema(&json(r#""fugue.score.v1""#)));
}

fn lane_event(onset: i64, duration: i64, midi: i64) -> fugue::events::NoteEvent {
    fugue::events::NoteEvent {
        onset: fugue::rat::Rat { num: onset, den: 1 },
        duration: fugue::rat::Rat { num: duration, den: 1 },
        midi,
        tie_start: false,
        tie_stop: false,
    }
}

#[test]
fn lanes_partition_events_and_open_only_when_all_are_busy() {
    // 0..2 and 1..3 overlap; 2..3 fits after the first; 3..4 fits again.
    let events = vec![lane_event(0, 2, 60), lane_event(1, 2, 64), lane_event(2, 1, 67), lane_event(3, 1, 72)];
    let lanes = fugue::events::assign_lanes(&events).expect("lanes");
    assert_eq!(lanes.len(), 2);
    let midis: Vec<Vec<i64>> = lanes.iter().map(|lane| lane.iter().map(|e| e.midi).collect()).collect();
    assert_eq!(midis, vec![vec![60, 67, 72], vec![64]]);
    let total: usize = lanes.iter().map(|lane| lane.len()).sum();
    assert_eq!(total, events.len());
}
