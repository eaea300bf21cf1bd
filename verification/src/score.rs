//! The `fugue.score.v1` score model: cells of steps plus light metadata.

use vstd::prelude::*;
use crate::json::{Binary, Json, JsonV, Number};
use crate::rat::Rat;
use crate::text::decimal;
use vstd::arithmetic::power2::pow2;

verus! {

/// Current score schema identifier.
pub const SCORE_SCHEMA_V1: &'static str = "fugue.score.v1";

/// Beats per measure and the note value of one beat.
#[derive(Clone, Copy, Debug, PartialEq, Eq, Structural)]
pub struct TimeSignature {
    pub beats_per_measure: u32,
    pub beat_unit: u32,
}

impl TimeSignature {
    /// Common time, 4/4.
    pub fn common() -> (t: TimeSignature)
        ensures
            t.beats_per_measure == 4,
            t.beat_unit == 4,
    {
        TimeSignature { beats_per_measure: 4, beat_unit: 4 }
    }
}

/// One sequencer step: a rest (`note` is `None`), a note onset given as an
/// offset from the base note, or a held continuation of the previous note.
#[derive(Clone, Copy, Debug, PartialEq, Eq, Structural)]
pub struct Step {
    pub note: Option<i8>,
    pub held: bool,
}

impl Step {
    pub fn rest() -> (s: Step)
        ensures
            s == (Step { note: None, held: false }),
    {
        Step { note: None, held: false }
    }

    pub fn note(offset: i8) -> (s: Step)
        ensures
            s == (Step { note: Some(offset), held: false }),
    {
        Step { note: Some(offset), held: false }
    }

    pub fn held() -> (s: Step)
        ensures
            s == (Step { note: None, held: true }),
    {
        Step { note: None, held: true }
    }
}

/// The notated tempo that takes effect at a step (quarter-note BPM, exact).
#[derive(Clone, Copy, Debug, PartialEq, Eq, Structural)]
pub struct TempoPoint {
    pub at_step: u64,
    pub bpm: Rat,
    /// Steps over which the tempo glides into `bpm`; `None` is an
    /// instantaneous change.
    pub ramp: Option<u64>,
}

/// A `fugue.score.v1` document.
pub struct Score {
    pub schema: Option<String>,
    pub title: Option<String>,
    pub composer: Option<String>,
    pub key: Option<String>,
    pub tempo: Option<Rat>,
    pub tempo_map: Vec<TempoPoint>,
    pub time_signature: Option<TimeSignature>,
    pub base_note_hint: Option<i64>,
    pub rhythm_grid: Option<String>,
    pub cells: Vec<Vec<Step>>,
    /// Sustain-pedal gate lanes, one per part with pedal events.
    pub pedal: Vec<Vec<Step>>,
}

} // verus!

verus! {

// ---------------------------------------------------------------------------
// Validation of score documents as JSON

/// The value of the first member named `key`.
pub open spec fn get(m: Seq<(Seq<char>, JsonV)>, key: Seq<char>) -> Option<JsonV> {
    crate::reload::member(m, key, 0)
}

/// A member that is present and not null.
pub open spec fn get_set(m: Seq<(Seq<char>, JsonV)>, key: Seq<char>) -> Option<JsonV> {
    match get(m, key) {
        Some(JsonV::Null) => None,
        other => other,
    }
}

/// `Value::as_i64`: an integer that fits `i64`.
pub open spec fn as_i64_spec(v: JsonV) -> Option<int> {
    match v {
        JsonV::Number(Number::PosInt(n)) => if n <= i64::MAX { Some(n as int) } else { None },
        JsonV::Number(Number::NegInt(n)) => Some(n as int),
        _ => None,
    }
}

/// `Value::as_u64`: a non-negative integer.
pub open spec fn as_u64_spec(v: JsonV) -> Option<int> {
    match v {
        JsonV::Number(Number::PosInt(n)) => Some(n as int),
        _ => None,
    }
}

/// The value of a binary number is positive.
pub open spec fn binary_positive(b: Binary) -> bool {
    b.mantissa > 0
}

/// The value `mantissa * 2^exponent` of a binary number is at most one.
pub open spec fn binary_at_most_one(b: Binary) -> bool {
    if b.mantissa <= 0 {
        true
    } else if b.exponent >= 0 {
        b.mantissa * pow2(b.exponent as nat) <= 1
    } else {
        b.mantissa <= pow2((-b.exponent) as nat)
    }
}

/// A number is positive.
pub open spec fn number_positive(n: Number) -> bool {
    match n {
        Number::PosInt(x) => x > 0,
        Number::NegInt(x) => x > 0,
        Number::Float(b) => binary_positive(b),
    }
}

/// A number lies in `0..=1`.
pub open spec fn number_in_unit(n: Number) -> bool {
    match n {
        Number::PosInt(x) => x <= 1,
        Number::NegInt(x) => 0 <= x <= 1,
        Number::Float(b) => b.mantissa >= 0 && binary_at_most_one(b),
    }
}

/// The problem with a step note offset that does not fit `i8`.
pub open spec fn note_range_problem(note: int) -> Option<Seq<char>> {
    if -128 <= note <= 127 {
        None
    } else {
        Some("step.note "@ + decimal(note) + " out of range (must fit in -128..=127)"@)
    }
}

/// A number field of a step (`gate`, `amplitude`) must lie in `0..=1`.
pub open spec fn unit_field_problem(m: Seq<(Seq<char>, JsonV)>, key: Seq<char>) -> Option<Seq<char>> {
    match get_set(m, key) {
        None => None,
        Some(JsonV::Number(n)) => if number_in_unit(n) { None } else { Some("step."@ + key + " must be between 0 and 1"@) },
        Some(_) => Some("step."@ + key + " must be a number"@),
    }
}

/// Whether some member is named other than `held`.
pub open spec fn has_other_than_held(m: Seq<(Seq<char>, JsonV)>) -> bool {
    exists|i: int| 0 <= i < m.len() && m[i].0 != "held"@
}

/// The first problem with a step: `null`, an integer offset, or an object
/// in the sequencers' `{ note, gate, held, amplitude }` shape.
pub open spec fn step_problem(v: JsonV) -> Option<Seq<char>> {
    match v {
        JsonV::Null => None,
        JsonV::Object(m) => match get(m, "held"@) {
            Some(JsonV::Bool(true)) => if has_other_than_held(m) {
                Some("held steps may only contain {\"held\": true}"@)
            } else {
                None
            },
            Some(JsonV::Bool(false)) | None => {
                let note = match get(m, "note"@) {
                    Some(JsonV::Null) | None => None,
                    Some(JsonV::Number(n)) => match as_i64_spec(JsonV::Number(n)) {
                        Some(x) => note_range_problem(x),
                        None => Some("step.note must be an integer or null"@),
                    },
                    Some(_) => Some("step.note must be an integer or null"@),
                };
                if note is Some {
                    note
                } else if unit_field_problem(m, "gate"@) is Some {
                    unit_field_problem(m, "gate"@)
                } else {
                    unit_field_problem(m, "amplitude"@)
                }
            },
            Some(_) => Some("step.held must be a boolean"@),
        },
        _ => match as_i64_spec(v) {
            Some(x) => note_range_problem(x),
            None => Some("each step must be null, an integer, or an object"@),
        },
    }
}

/// The integer a JSON number holds, when it holds one.
pub open spec fn integer_of(n: Number) -> Option<int> {
    match n {
        Number::PosInt(x) => Some(x as int),
        Number::NegInt(x) => Some(x as int),
        Number::Float(_) => None,
    }
}

/// A bare integer step is a note offset: it is accepted exactly when it
/// lies in -128..=127, and it is accepted exactly when the same offset as
/// an object step's `note` is.
pub proof fn lemma_integer_steps_are_note_offsets(n: Number)
    requires
        integer_of(n) is Some,
    ensures
        step_problem(JsonV::Number(n)) is None <==> -128 <= integer_of(n)->Some_0 <= 127,
        step_problem(JsonV::Number(n)) is None
            <==> step_problem(JsonV::Object(seq![("note"@, JsonV::Number(n))])) is None,
{
    let m = seq![("note"@, JsonV::Number(n))];
    assert(get(m, "held"@) is None) by {
        assert(m[0].0 != "held"@) by {
            reveal_strlit("note");
            reveal_strlit("held");
            assert("note"@[0] != "held"@[0]);
        }
        assert(crate::reload::member(m, "held"@, 1) is None);
    }
    assert(get(m, "note"@) == Some(JsonV::Number(n)));
    assert(get(m, "gate"@) is None) by {
        assert(m[0].0 != "gate"@) by {
            reveal_strlit("note");
            reveal_strlit("gate");
            assert("note"@[0] != "gate"@[0]);
        }
        assert(crate::reload::member(m, "gate"@, 1) is None);
    }
    assert(get(m, "amplitude"@) is None) by {
        assert(m[0].0 != "amplitude"@) by {
            reveal_strlit("note");
            reveal_strlit("amplitude");
            assert("note"@.len() != "amplitude"@.len());
        }
        assert(crate::reload::member(m, "amplitude"@, 1) is None);
    }
}

/// The first problem among the first `k` steps of a lane, prefixed with the
/// lane's name.
pub open spec fn steps_problem(steps: Seq<JsonV>, prefix: Seq<char>, k: int) -> Option<Seq<char>>
    decreases k,
{
    if k <= 0 || k > steps.len() {
        None
    } else {
        match steps_problem(steps, prefix, k - 1) {
            Some(e) => Some(e),
            None => match step_problem(steps[k - 1]) {
                Some(e) => Some(prefix + ": "@ + e),
                None => None,
            },
        }
    }
}

/// The first problem among the first `k` lanes of `field` (`cells` or
/// `pedal`): each must be a non-empty array of valid steps.
pub open spec fn lanes_problem(lanes: Seq<JsonV>, field: Seq<char>, k: int) -> Option<Seq<char>>
    decreases k,
{
    if k <= 0 || k > lanes.len() {
        None
    } else {
        match lanes_problem(lanes, field, k - 1) {
            Some(e) => Some(e),
            None => {
                let name = "score."@ + field + "["@ + decimal(k - 1) + "]"@;
                match lanes[k - 1] {
                    JsonV::Array(steps) => if steps.len() == 0 {
                        Some(name + " must not be empty"@)
                    } else {
                        steps_problem(steps, name, steps.len() as int)
                    },
                    _ => Some(name + " must be an array of steps"@),
                }
            },
        }
    }
}

/// The first problem among the first `k` entries of a tempo map: objects
/// with a non-negative integer `at_step`, strictly ascending, a positive
/// `bpm`, and an optional `ramp` of at least one step.
pub open spec fn tempo_map_problem(entries: Seq<JsonV>, k: int) -> Option<Seq<char>>
    decreases k,
{
    if k <= 0 || k > entries.len() {
        None
    } else {
        match tempo_map_problem(entries, k - 1) {
            Some(e) => Some(e),
            None => {
                let name = "score.tempo_map["@ + decimal(k - 1) + "]"@;
                match entries[k - 1] {
                    JsonV::Object(m) => match get(m, "at_step"@) {
                        None => Some(name + ".at_step must be a non-negative integer"@),
                        Some(a) => match as_u64_spec(a) {
                            None => Some(name + ".at_step must be a non-negative integer"@),
                            Some(at) => match get(m, "bpm"@) {
                                Some(JsonV::Number(n)) => if !number_positive(n) {
                                    Some(name + ".bpm must be a positive number"@)
                                } else if k >= 2 && at <= previous_at_step(entries, k - 2) {
                                    Some(name + ".at_step ("@ + decimal(at) + ") must be greater than the previous entry ("@
                                        + decimal(previous_at_step(entries, k - 2)) + ")"@)
                                } else {
                                    match get_set(m, "ramp"@) {
                                        None => None,
                                        Some(r) => match as_u64_spec(r) {
                                            None => Some(name + ".ramp must be a non-negative integer"@),
                                            Some(x) => if x < 1 { Some(name + ".ramp must be at least 1 step"@) } else { None },
                                        },
                                    }
                                },
                                _ => Some(name + ".bpm must be a number"@),
                            },
                        },
                    },
                    _ => Some(name + " must be an object"@),
                }
            },
        }
    }
}

/// The `at_step` of entry `i` (valid when the entries before it passed).
pub open spec fn previous_at_step(entries: Seq<JsonV>, i: int) -> int {
    match entries[i] {
        JsonV::Object(m) => match get(m, "at_step"@) {
            Some(a) => match as_u64_spec(a) {
                Some(x) => x,
                None => 0,
            },
            None => 0,
        },
        _ => 0,
    }
}

/// The first problem with a time signature.
pub open spec fn time_signature_problem(v: JsonV) -> Option<Seq<char>> {
    match v {
        JsonV::Object(m) => match field_u64_problem(m, "beats_per_measure"@) {
            Some(e) => Some(e),
            None => field_u64_problem(m, "beat_unit"@),
        },
        _ => Some("score.time_signature must be an object"@),
    }
}

pub open spec fn field_u64_problem(m: Seq<(Seq<char>, JsonV)>, key: Seq<char>) -> Option<Seq<char>> {
    match get(m, key) {
        None => Some("score.time_signature."@ + key + " is required"@),
        Some(f) => match as_u64_spec(f) {
            None => Some("score.time_signature."@ + key + " must be a positive integer"@),
            Some(x) => if x == 0 { Some("score.time_signature."@ + key + " must be greater than 0"@) } else { None },
        },
    }
}

/// A text field must be a string or null.
pub open spec fn text_field_problem(m: Seq<(Seq<char>, JsonV)>, key: Seq<char>) -> Option<Seq<char>> {
    match get(m, key) {
        Some(JsonV::Null) | Some(JsonV::String(_)) | None => None,
        Some(_) => Some("score."@ + key + " must be a string"@),
    }
}

/// The first problem with a `fugue.score.v1` document, checked in order:
/// object, schema, text fields, tempo, tempo map, base note, time
/// signature, cells, pedal lanes.
pub open spec fn score_problem(v: JsonV) -> Option<Seq<char>> {
    match v {
        JsonV::Object(m) => {
            let schema = match get(m, "schema"@) {
                None => None,
                Some(JsonV::String(s)) => if s == SCORE_SCHEMA_V1@ {
                    None
                } else {
                    Some("unsupported score schema '"@ + s + "', expected '"@ + SCORE_SCHEMA_V1@ + "'"@)
                },
                Some(_) => Some("score.schema must be a string"@),
            };
            let texts = match text_field_problem(m, "title"@) {
                Some(e) => Some(e),
                None => match text_field_problem(m, "composer"@) {
                    Some(e) => Some(e),
                    None => match text_field_problem(m, "key"@) {
                        Some(e) => Some(e),
                        None => text_field_problem(m, "rhythm_grid"@),
                    },
                },
            };
            let tempo = match get_set(m, "tempo"@) {
                None => None,
                Some(JsonV::Number(n)) => if number_positive(n) { None } else { Some("score.tempo must be a positive number"@) },
                Some(_) => Some("score.tempo must be a number"@),
            };
            let tempo_map = match get_set(m, "tempo_map"@) {
                None => None,
                Some(JsonV::Array(es)) => tempo_map_problem(es, es.len() as int),
                Some(_) => Some("score.tempo_map must be an array"@),
            };
            let base = match get_set(m, "base_note_hint"@) {
                None => None,
                Some(b) => match as_i64_spec(b) {
                    None => Some("score.base_note_hint must be an integer"@),
                    Some(x) => if 0 <= x <= 127 { None } else { Some("score.base_note_hint must be between 0 and 127"@) },
                },
            };
            let signature = match get_set(m, "time_signature"@) {
                None => None,
                Some(t) => time_signature_problem(t),
            };
            let cells = match get_set(m, "cells"@) {
                None => Some("score must contain a non-empty 'cells' array"@),
                Some(JsonV::Array(ls)) => if ls.len() == 0 {
                    Some("score.cells must not be empty"@)
                } else {
                    lanes_problem(ls, "cells"@, ls.len() as int)
                },
                Some(_) => Some("score.cells must be an array"@),
            };
            let pedal = match get_set(m, "pedal"@) {
                None => None,
                Some(JsonV::Array(ls)) => lanes_problem(ls, "pedal"@, ls.len() as int),
                Some(_) => Some("score.pedal must be an array of lanes"@),
            };
            if schema is Some { schema }
            else if texts is Some { texts }
            else if tempo is Some { tempo }
            else if tempo_map is Some { tempo_map }
            else if base is Some { base }
            else if signature is Some { signature }
            else if cells is Some { cells }
            else { pedal }
        },
        _ => Some("score must be a JSON object"@),
    }
}

} // verus!

verus! {

pub(crate) fn field_of(m: &Vec<(String, Json)>, key: &str) -> (r: Option<usize>)
    ensures
        ({
            let mv = crate::json::members_view(m@);
            match get(mv, key@) {
                Some(v) => r matches Some(i) && i < m@.len() && m@[i as int].1.view() == v,
                None => r is None,
            }
        }),
{
    let ghost mv = crate::json::members_view(m@);
    proof {
        crate::json::lemma_members_view(m@);
    }
    let mut i: usize = 0;
    while i < m.len()
        invariant
            i <= m@.len(),
            mv == crate::json::members_view(m@),
            mv.len() == m@.len(),
            forall|j: int| 0 <= j < m@.len() ==> #[trigger] mv[j] == (m@[j].0@, m@[j].1.view()),
            get(mv, key@) == crate::reload::member(mv, key@, i as int),
        decreases m.len() - i,
    {
        if crate::text::str_equal(m[i].0.as_str(), key) {
            return Some(i);
        }
        i = i + 1;
    }
    None
}

fn as_i64_exec(v: &Json) -> (r: Option<i64>)
    ensures
        match as_i64_spec(v.view()) {
            Some(x) => r == Some(x as i64),
            None => r is None,
        },
{
    match v {
        Json::Number(Number::PosInt(n)) => if *n <= i64::MAX as u64 { Some(*n as i64) } else { None },
        Json::Number(Number::NegInt(n)) => Some(*n),
        _ => None,
    }
}

fn as_u64_exec(v: &Json) -> (r: Option<u64>)
    ensures
        match as_u64_spec(v.view()) {
            Some(x) => r == Some(x as u64),
            None => r is None,
        },
{
    match v {
        Json::Number(Number::PosInt(n)) => Some(*n),
        _ => None,
    }
}

fn binary_at_most_one_exec(b: Binary) -> (r: bool)
    ensures
        r == binary_at_most_one(b),
{
    if b.mantissa <= 0 {
        return true;
    }
    if b.exponent >= 0 {
        proof {
            vstd::arithmetic::power2::lemma_pow2_pos(b.exponent as nat);
            if b.exponent > 0 {
                vstd::arithmetic::power2::lemma_pow2_strictly_increases(0, b.exponent as nat);
            }
            vstd::arithmetic::power2::lemma2_to64();
            let pe = pow2(b.exponent as nat) as int;
            let mm = b.mantissa as int;
            assert(pe >= 1);
            if b.exponent > 0 {
                assert(pe >= 2);
                assert(mm * pe >= 2) by (nonlinear_arith) requires mm >= 1, pe >= 2;
            } else {
                assert(pe == 1);
                assert(mm * pe == mm);
            }
        }
        return b.mantissa == 1 && b.exponent == 0;
    }
    let k: i64 = -(b.exponent as i64);
    if k >= 63 {
        proof {
            vstd::arithmetic::power2::lemma2_to64();
            vstd::arithmetic::power2::lemma_pow2_unfold(64);
            if k > 63 {
                vstd::arithmetic::power2::lemma_pow2_strictly_increases(63, k as nat);
            }
        }
        return true;
    }
    let mut p: u64 = 1;
    let mut j: i64 = 0;
    proof {
        vstd::arithmetic::power2::lemma2_to64();
    }
    while j < k
        invariant
            0 <= j <= k,
            k < 63,
            p == pow2(j as nat),
        decreases k - j,
    {
        proof {
            vstd::arithmetic::power2::lemma_pow2_unfold((j + 1) as nat);
            vstd::arithmetic::power2::lemma_pow2_strictly_increases((j + 1) as nat, 63);
            vstd::arithmetic::power2::lemma2_to64();
            vstd::arithmetic::power2::lemma_pow2_unfold(64);
        }
        p = p * 2;
        j = j + 1;
    }
    (b.mantissa as u64) <= p
}

fn number_positive_exec(n: Number) -> (r: bool)
    ensures
        r == number_positive(n),
{
    match n {
        Number::PosInt(x) => x > 0,
        Number::NegInt(x) => x > 0,
        Number::Float(b) => b.mantissa > 0,
    }
}

fn number_in_unit_exec(n: Number) -> (r: bool)
    ensures
        r == number_in_unit(n),
{
    match n {
        Number::PosInt(x) => x <= 1,
        Number::NegInt(x) => 0 <= x && x <= 1,
        Number::Float(b) => b.mantissa >= 0 && binary_at_most_one_exec(b),
    }
}

fn text_of(parts: &Vec<char>) -> (r: String)
    ensures
        r@ == parts@,
{
    crate::text::string_of(parts)
}

fn note_range_exec(note: i64) -> (r: Option<String>)
    ensures
        match note_range_problem(note as int) {
            Some(m) => r matches Some(e) && e@ == m,
            None => r is None,
        },
{
    if -128 <= note && note <= 127 {
        None
    } else {
        let mut t: Vec<char> = crate::text::chars_of("step.note ");
        let d = crate::text::decimal_text(note);
        crate::text::push_chars(&mut t, &d);
        crate::text::push_str(&mut t, " out of range (must fit in -128..=127)");
        Some(text_of(&t))
    }
}

fn unit_field_exec(m: &Vec<(String, Json)>, key: &str) -> (r: Option<String>)
    ensures
        match unit_field_problem(crate::json::members_view(m@), key@) {
            Some(e) => r matches Some(x) && x@ == e,
            None => r is None,
        },
{
    match field_of(m, key) {
        None => None,
        Some(i) => match &m[i].1 {
            Json::Null => None,
            Json::Number(n) => if number_in_unit_exec(*n) {
                None
            } else {
                let mut t: Vec<char> = crate::text::chars_of("step.");
                crate::text::push_str(&mut t, key);
                crate::text::push_str(&mut t, " must be between 0 and 1");
                Some(text_of(&t))
            },
            _ => {
                let mut t: Vec<char> = crate::text::chars_of("step.");
                crate::text::push_str(&mut t, key);
                crate::text::push_str(&mut t, " must be a number");
                Some(text_of(&t))
            },
        },
    }
}

fn step_exec(v: &Json) -> (r: Option<String>)
    ensures
        match step_problem(v.view()) {
            Some(e) => r matches Some(x) && x@ == e,
            None => r is None,
        },
{
    match v {
        Json::Null => None,
        Json::Object(m) => {
            let ghost mv = crate::json::members_view(m@);
            proof {
                crate::json::lemma_members_view(m@);
            }
            match field_of(m, "held") {
                Some(h) => match &m[h].1 {
                    Json::Bool(true) => {
                        let mut i: usize = 0;
                        while i < m.len()
                            invariant
                                i <= m@.len(),
                                mv == crate::json::members_view(m@),
                                mv.len() == m@.len(),
                                forall|j: int| 0 <= j < m@.len() ==> #[trigger] mv[j] == (m@[j].0@, m@[j].1.view()),
                                forall|j: int| 0 <= j < i ==> mv[j].0 == "held"@,
                                *v == Json::Object(*m),
                                get(mv, "held"@) == Some(JsonV::Bool(true)),
                            decreases m.len() - i,
                        {
                            if !crate::text::str_equal(m[i].0.as_str(), "held") {
                                proof {
                                    assert(mv[i as int].0 != "held"@);
                                    assert(has_other_than_held(mv));
                                    assert(v.view() == JsonV::Object(mv));
                                    assert(get(mv, "held"@) == Some(JsonV::Bool(true)));
                                }
                                return Some(text_of(&crate::text::chars_of("held steps may only contain {\"held\": true}")));
                            }
                            i = i + 1;
                        }
                        return None;
                    },
                    Json::Bool(false) => {},
                    _ => {
                        return Some(text_of(&crate::text::chars_of("step.held must be a boolean")));
                    },
                },
                None => {},
            }
            let note: Option<String> = match field_of(m, "note") {
                None => None,
                Some(i) => match &m[i].1 {
                    Json::Null => None,
                    Json::Number(n) => match as_i64_exec(&m[i].1) {
                        Some(x) => note_range_exec(x),
                        None => Some(text_of(&crate::text::chars_of("step.note must be an integer or null"))),
                    },
                    _ => Some(text_of(&crate::text::chars_of("step.note must be an integer or null"))),
                },
            };
            if note.is_some() {
                return note;
            }
            let gate = unit_field_exec(m, "gate");
            if gate.is_some() {
                return gate;
            }
            unit_field_exec(m, "amplitude")
        },
        _ => match as_i64_exec(v) {
            Some(x) => note_range_exec(x),
            None => Some(text_of(&crate::text::chars_of("each step must be null, an integer, or an object"))),
        },
    }
}

} // verus!

verus! {

fn lane_name(field: &str, k: usize) -> (r: Vec<char>)
    ensures
        r@ == "score."@ + field@ + "["@ + decimal(k as int) + "]"@,
{
    let mut t: Vec<char> = crate::text::chars_of("score.");
    crate::text::push_str(&mut t, field);
    crate::text::push_str(&mut t, "[");
    let d = crate::text::usize_text(k);
    crate::text::push_chars(&mut t, &d);
    crate::text::push_str(&mut t, "]");
    t
}

fn lanes_exec(lanes: &Vec<Json>, field: &str) -> (r: Option<String>)
    ensures
        match lanes_problem(crate::json::items_view(lanes@), field@, lanes@.len() as int) {
            Some(e) => r matches Some(x) && x@ == e,
            None => r is None,
        },
{
    let ghost lv = crate::json::items_view(lanes@);
    proof {
        crate::json::lemma_items_view(lanes@);
    }
    let mut k: usize = 0;
    while k < lanes.len()
        invariant
            k <= lanes@.len(),
            lv == crate::json::items_view(lanes@),
            lv.len() == lanes@.len(),
            forall|j: int| 0 <= j < lanes@.len() ==> #[trigger] lv[j] == lanes@[j].view(),
            lanes_problem(lv, field@, k as int) is None,
        decreases lanes.len() - k,
    {
        let name = lane_name(field, k);
        match &lanes[k] {
            Json::Array(steps) => {
                let ghost sv = crate::json::items_view(steps@);
                proof {
                    crate::json::lemma_items_view(steps@);
                    assert(lv[k as int] == JsonV::Array(sv));
                }
                if steps.len() == 0 {
                    let mut t = name;
                    crate::text::push_str(&mut t, " must not be empty");
                    proof {
                        lemma_lanes_problem_first(lv, field@, k as int);
                    }
                    return Some(text_of(&t));
                }
                let mut i: usize = 0;
                while i < steps.len()
                    invariant
                        i <= steps@.len(),
                        sv == crate::json::items_view(steps@),
                        sv.len() == steps@.len(),
                        forall|j: int| 0 <= j < steps@.len() ==> #[trigger] sv[j] == steps@[j].view(),
                        steps_problem(sv, name@, i as int) is None,
                        k < lanes@.len(),
                        lv == crate::json::items_view(lanes@),
                        lv.len() == lanes@.len(),
                        lanes_problem(lv, field@, k as int) is None,
                        lv[k as int] == JsonV::Array(sv),
                        sv.len() > 0,
                        name@ == "score."@ + field@ + "["@ + decimal(k as int) + "]"@,
                    decreases steps.len() - i,
                {
                    match step_exec(&steps[i]) {
                        Some(e) => {
                            let mut t = copy_chars_of(&name);
                            crate::text::push_str(&mut t, ": ");
                            crate::text::push_str(&mut t, e.as_str());
                            proof {
                                assert(sv[i as int] == steps@[i as int].view());
                                assert(steps_problem(sv, name@, i + 1) == Some(name@ + ": "@ + e@));
                                lemma_steps_problem_stays(sv, name@, i + 1, sv.len() as int);
                                lemma_lanes_problem_first(lv, field@, k as int);
                            }
                            return Some(text_of(&t));
                        },
                        None => {
                            proof {
                                assert(sv[i as int] == steps@[i as int].view());
                            }
                        },
                    }
                    i = i + 1;
                }
            },
            _ => {
                let mut t = name;
                crate::text::push_str(&mut t, " must be an array of steps");
                proof {
                    lemma_lanes_problem_first(lv, field@, k as int);
                }
                return Some(text_of(&t));
            },
        }
        k = k + 1;
    }
    None
}

fn copy_chars_of(v: &Vec<char>) -> (r: Vec<char>)
    ensures
        r@ == v@,
{
    crate::text::copy_chars(v)
}

/// Once a problem is found among the first `k` steps, it stays the first.
proof fn lemma_steps_problem_stays(steps: Seq<JsonV>, prefix: Seq<char>, k: int, n: int)
    requires
        0 < k <= n <= steps.len(),
        steps_problem(steps, prefix, k) is Some,
    ensures
        steps_problem(steps, prefix, n) == steps_problem(steps, prefix, k),
    decreases n - k,
{
    if k < n {
        lemma_steps_problem_stays(steps, prefix, k, n - 1);
    }
}

/// Once a problem is found among the first `k + 1` lanes, it stays the
/// first.
proof fn lemma_lanes_problem_first(lanes: Seq<JsonV>, field: Seq<char>, k: int)
    requires
        0 <= k < lanes.len(),
    ensures
        lanes_problem(lanes, field, k + 1) is Some ==> lanes_problem(lanes, field, lanes.len() as int) == lanes_problem(lanes, field, k + 1),
    decreases lanes.len() - k,
{
    if k + 1 < lanes.len() {
        lemma_lanes_problem_first(lanes, field, k + 1);
    }
}

} // verus!

verus! {

proof fn lemma_tempo_map_problem_first(entries: Seq<JsonV>, k: int)
    requires
        0 <= k < entries.len(),
    ensures
        tempo_map_problem(entries, k + 1) is Some ==> tempo_map_problem(entries, entries.len() as int) == tempo_map_problem(entries, k + 1),
    decreases entries.len() - k,
{
    if k + 1 < entries.len() {
        lemma_tempo_map_problem_first(entries, k + 1);
    }
}

fn entry_msg(k: usize, tail: &str) -> (r: String)
    ensures
        r@ == "score.tempo_map["@ + decimal(k as int) + "]"@ + tail@,
{
    let mut t: Vec<char> = crate::text::chars_of("score.tempo_map[");
    let d = crate::text::usize_text(k);
    crate::text::push_chars(&mut t, &d);
    crate::text::push_str(&mut t, "]");
    crate::text::push_str(&mut t, tail);
    text_of(&t)
}

fn tempo_map_exec(entries: &Vec<Json>) -> (r: Option<String>)
    ensures
        match tempo_map_problem(crate::json::items_view(entries@), entries@.len() as int) {
            Some(e) => r matches Some(x) && x@ == e,
            None => r is None,
        },
{
    let ghost ev = crate::json::items_view(entries@);
    proof {
        crate::json::lemma_items_view(entries@);
    }
    let mut previous: Option<u64> = None;
    let mut k: usize = 0;
    while k < entries.len()
        invariant
            k <= entries@.len(),
            ev == crate::json::items_view(entries@),
            ev.len() == entries@.len(),
            forall|j: int| 0 <= j < entries@.len() ==> #[trigger] ev[j] == entries@[j].view(),
            tempo_map_problem(ev, k as int) is None,
            k == 0 ==> previous is None,
            k > 0 ==> previous == Some(previous_at_step(ev, k - 1) as u64) && 0 <= previous_at_step(ev, k - 1) <= u64::MAX,
        decreases entries.len() - k,
    {
        proof {
            lemma_tempo_map_problem_first(ev, k as int);
            assert(ev[k as int] == entries@[k as int].view());
        }
        let m = match &entries[k] {
            Json::Object(m) => m,
            _ => {
                return Some(entry_msg(k, " must be an object"));
            },
        };
        let ghost mv = crate::json::members_view(m@);
        let at_step: u64 = match field_of(m, "at_step") {
            None => {
                return Some(entry_msg(k, ".at_step must be a non-negative integer"));
            },
            Some(i) => match as_u64_exec(&m[i].1) {
                Some(x) => x,
                None => {
                    return Some(entry_msg(k, ".at_step must be a non-negative integer"));
                },
            },
        };
        proof {
            assert(previous_at_step(ev, k as int) == at_step);
        }
        match field_of(m, "bpm") {
            Some(i) => match &m[i].1 {
                Json::Number(n) => {
                    if !number_positive_exec(*n) {
                        return Some(entry_msg(k, ".bpm must be a positive number"));
                    }
                },
                _ => {
                    return Some(entry_msg(k, ".bpm must be a number"));
                },
            },
            None => {
                return Some(entry_msg(k, ".bpm must be a number"));
            },
        }
        match previous {
            Some(p) => {
                if at_step <= p {
                    let mut t: Vec<char> = crate::text::chars_of("score.tempo_map[");
                    let d = crate::text::usize_text(k);
                    crate::text::push_chars(&mut t, &d);
                    crate::text::push_str(&mut t, "]");
                    crate::text::push_str(&mut t, ".at_step (");
                    let a = crate::text::u64_text(at_step);
                    crate::text::push_chars(&mut t, &a);
                    crate::text::push_str(&mut t, ") must be greater than the previous entry (");
                    let b = crate::text::u64_text(p);
                    crate::text::push_chars(&mut t, &b);
                    crate::text::push_str(&mut t, ")");
                    proof {
                        assert(t@ =~= "score.tempo_map["@ + decimal(k as int) + "]"@ + ".at_step ("@ + decimal(at_step as int)
                            + ") must be greater than the previous entry ("@ + decimal(p as int) + ")"@);
                    }
                    return Some(text_of(&t));
                }
            },
            None => {},
        }
        match field_of(m, "ramp") {
            None => {},
            Some(i) => match &m[i].1 {
                Json::Null => {},
                _ => match as_u64_exec(&m[i].1) {
                    None => {
                        return Some(entry_msg(k, ".ramp must be a non-negative integer"));
                    },
                    Some(x) => {
                        if x < 1 {
                            return Some(entry_msg(k, ".ramp must be at least 1 step"));
                        }
                    },
                },
            },
        }
        previous = Some(at_step);
        k = k + 1;
    }
    None
}

fn time_signature_exec(v: &Json) -> (r: Option<String>)
    ensures
        match time_signature_problem(v.view()) {
            Some(e) => r matches Some(x) && x@ == e,
            None => r is None,
        },
{
    match v {
        Json::Object(m) => {
            let e = field_u64_exec(m, "beats_per_measure");
            if e.is_some() {
                return e;
            }
            field_u64_exec(m, "beat_unit")
        },
        _ => Some(text_of(&crate::text::chars_of("score.time_signature must be an object"))),
    }
}

fn field_u64_exec(m: &Vec<(String, Json)>, key: &str) -> (r: Option<String>)
    ensures
        match field_u64_problem(crate::json::members_view(m@), key@) {
            Some(e) => r matches Some(x) && x@ == e,
            None => r is None,
        },
{
    let mut t: Vec<char> = crate::text::chars_of("score.time_signature.");
    crate::text::push_str(&mut t, key);
    match field_of(m, key) {
        None => {
            crate::text::push_str(&mut t, " is required");
            Some(text_of(&t))
        },
        Some(i) => match as_u64_exec(&m[i].1) {
            None => {
                crate::text::push_str(&mut t, " must be a positive integer");
                Some(text_of(&t))
            },
            Some(x) => if x == 0 {
                crate::text::push_str(&mut t, " must be greater than 0");
                Some(text_of(&t))
            } else {
                None
            },
        },
    }
}

fn text_field_exec(m: &Vec<(String, Json)>, key: &str) -> (r: Option<String>)
    ensures
        match text_field_problem(crate::json::members_view(m@), key@) {
            Some(e) => r matches Some(x) && x@ == e,
            None => r is None,
        },
{
    match field_of(m, key) {
        None => None,
        Some(i) => match &m[i].1 {
            Json::Null => None,
            Json::String(_) => None,
            _ => {
                let mut t: Vec<char> = crate::text::chars_of("score.");
                crate::text::push_str(&mut t, key);
                crate::text::push_str(&mut t, " must be a string");
                Some(text_of(&t))
            },
        },
    }
}

/// Validates that `value` is a well-formed `fugue.score.v1` document,
/// reporting the first problem found (see [`score_problem`]).
pub fn validate_score(value: &Json) -> (r: Result<(), String>)
    ensures
        match score_problem(value.view()) {
            None => r is Ok,
            Some(e) => r matches Err(x) && x@ == e,
        },
{
    let m = match value {
        Json::Object(m) => m,
        _ => {
            return Err(text_of(&crate::text::chars_of("score must be a JSON object")));
        },
    };
    match field_of(m, "schema") {
        None => {},
        Some(i) => match &m[i].1 {
            Json::String(s) => {
                if !crate::text::str_equal(s.as_str(), SCORE_SCHEMA_V1) {
                    let mut t: Vec<char> = crate::text::chars_of("unsupported score schema '");
                    crate::text::push_str(&mut t, s.as_str());
                    crate::text::push_str(&mut t, "', expected '");
                    crate::text::push_str(&mut t, SCORE_SCHEMA_V1);
                    crate::text::push_str(&mut t, "'");
                    return Err(text_of(&t));
                }
            },
            _ => {
                return Err(text_of(&crate::text::chars_of("score.schema must be a string")));
            },
        },
    }
    let t = text_field_exec(m, "title");
    if let Some(e) = t {
        return Err(e);
    }
    let t = text_field_exec(m, "composer");
    if let Some(e) = t {
        return Err(e);
    }
    let t = text_field_exec(m, "key");
    if let Some(e) = t {
        return Err(e);
    }
    let t = text_field_exec(m, "rhythm_grid");
    if let Some(e) = t {
        return Err(e);
    }
    match field_of(m, "tempo") {
        None => {},
        Some(i) => match &m[i].1 {
            Json::Null => {},
            Json::Number(n) => {
                if !number_positive_exec(*n) {
                    return Err(text_of(&crate::text::chars_of("score.tempo must be a positive number")));
                }
            },
            _ => {
                return Err(text_of(&crate::text::chars_of("score.tempo must be a number")));
            },
        },
    }
    match field_of(m, "tempo_map") {
        None => {},
        Some(i) => match &m[i].1 {
            Json::Null => {},
            Json::Array(es) => {
                proof {
                    crate::json::lemma_items_view(es@);
                }
                let e = tempo_map_exec(es);
                if let Some(x) = e {
                    return Err(x);
                }
            },
            _ => {
                return Err(text_of(&crate::text::chars_of("score.tempo_map must be an array")));
            },
        },
    }
    match field_of(m, "base_note_hint") {
        None => {},
        Some(i) => match &m[i].1 {
            Json::Null => {},
            _ => match as_i64_exec(&m[i].1) {
                None => {
                    return Err(text_of(&crate::text::chars_of("score.base_note_hint must be an integer")));
                },
                Some(x) => {
                    if !(0 <= x && x <= 127) {
                        return Err(text_of(&crate::text::chars_of("score.base_note_hint must be between 0 and 127")));
                    }
                },
            },
        },
    }
    match field_of(m, "time_signature") {
        None => {},
        Some(i) => match &m[i].1 {
            Json::Null => {},
            _ => {
                let e = time_signature_exec(&m[i].1);
                if let Some(x) = e {
                    return Err(x);
                }
            },
        },
    }
    match field_of(m, "cells") {
        None => {
            return Err(text_of(&crate::text::chars_of("score must contain a non-empty 'cells' array")));
        },
        Some(i) => match &m[i].1 {
            Json::Null => {
                return Err(text_of(&crate::text::chars_of("score must contain a non-empty 'cells' array")));
            },
            Json::Array(ls) => {
                if ls.len() == 0 {
                    return Err(text_of(&crate::text::chars_of("score.cells must not be empty")));
                }
                proof {
                    crate::json::lemma_items_view(ls@);
                }
                let e = lanes_exec(ls, "cells");
                if let Some(x) = e {
                    return Err(x);
                }
            },
            _ => {
                return Err(text_of(&crate::text::chars_of("score.cells must be an array")));
            },
        },
    }
    match field_of(m, "pedal") {
        None => {},
        Some(i) => match &m[i].1 {
            Json::Null => {},
            Json::Array(ls) => {
                proof {
                    crate::json::lemma_items_view(ls@);
                }
                let e = lanes_exec(ls, "pedal");
                if let Some(x) = e {
                    return Err(x);
                }
            },
            _ => {
                return Err(text_of(&crate::text::chars_of("score.pedal must be an array of lanes")));
            },
        },
    }
    Ok(())
}

} // verus!
