//! MusicXML (`score-partwise`) to `fugue.score.v1` conversion.
//!
//! Time is tracked as exact rationals in quarter notes; the rhythm grid is
//! the GCD of every onset, duration, measure length and mark position, so
//! quantization is lossless. Each voice becomes one or more lanes (chords and
//! overlapping notes split by greedy interval colouring), ties merge into
//! held continuations, and note offsets are relative to middle C.

use vstd::prelude::*;
use crate::events::NoteEvent;
use crate::marks::PedalKind;
use crate::score::TimeSignature;
use crate::names::midi_of_spelling;
use crate::rat::{Rat, reduce};
use crate::text::{
    cat3, cat5, decimal, decimal_rat, decimal_text, parse_decimal, parse_i32, parse_i32_spec,
    parse_i64, parse_i64_spec, parse_u32, parse_u32_spec, trim, trimmed,
};
use crate::xml::{XmlDoc, attribute, child_named, child_text, has_child, named_children, text_of};

verus! {

// ---------------------------------------------------------------------------
// Reading one `<note>`

/// The duration of a `<note>`, `<backup>` or `<forward>` in quarter notes,
/// or the error for measure `n`.
pub open spec fn duration_spec(doc: XmlDoc, e: int, n: Seq<char>, divisions: i64) -> Result<Rat, Seq<char>> {
    match doc.child_text(e, "duration"@) {
        None => Err("measure "@ + n + ": <"@ + doc.names@[e]@ + "> is missing <duration>"@),
        Some(t) => match parse_i64_spec(t) {
            None => Err("measure "@ + n + ": invalid <duration> '"@ + t + "'"@),
            Some(v) => if v < 0 {
                Err("measure "@ + n + ": negative <duration>"@)
            } else {
                Ok(Rat::from_pair(reduce(v, divisions as int)))
            },
        },
    }
}

/// Reads the duration of element `e` (see [`duration_spec`]).
pub fn required_duration(doc: &XmlDoc, e: usize, n: &Vec<char>, divisions: i64) -> (r: Result<Rat, Vec<char>>)
    requires
        doc.wf(),
        e < doc.len(),
        divisions > 0,
    ensures
        match duration_spec(*doc, e as int, n@, divisions) {
            Ok(d) => r == Ok::<Rat, Vec<char>>(d) && d.wf(),
            Err(m) => r matches Err(v) && v@ == m,
        },
{
    let t = match child_text(doc, e, "duration") {
        Some(t) => t,
        None => {
            return Err(cat5("measure ", n, ": <", &doc.names[e], "> is missing <duration>"));
        },
    };
    let v = match parse_i64(&t) {
        Some(v) => v,
        None => {
            return Err(cat5("measure ", n, ": invalid <duration> '", &t, "'"));
        },
    };
    if v < 0 {
        return Err(cat3("measure ", n, ": negative <duration>"));
    }
    Ok(Rat::new(v, divisions))
}

/// Whether `s` is a single ASCII character.
pub open spec fn single_ascii(s: Seq<char>) -> bool {
    s.len() == 1 && (s[0] as u32) < 128
}

/// The MIDI note of a pitched `<note>`: `None` for rests and unpitched
/// notes, or the error for measure `n`.
pub open spec fn note_midi_spec(doc: XmlDoc, e: int, n: Seq<char>) -> Result<Option<i64>, Seq<char>> {
    if doc.has_child(e, "rest"@) {
        Ok(None)
    } else {
        match doc.child_named(e, "pitch"@) {
            None => Ok(None),
            Some(p) => {
                let p = p as int;
                match doc.child_text(p, "step"@) {
                    None => Err("measure "@ + n + ": <pitch> missing <step>"@),
                    Some(step) => if !single_ascii(step) {
                        Err("measure "@ + n + ": invalid <step> '"@ + step + "'"@)
                    } else {
                        let alter: Result<int, Seq<char>> = match doc.child_text(p, "alter"@) {
                            None => Ok(0),
                            Some(t) => match decimal_rat(t) {
                                None => Err("measure "@ + n + ": invalid <alter> '"@ + t + "'"@),
                                Some(q) => if q.den != 1 {
                                    Err("measure "@ + n + ": microtonal <alter> "@ + t + " is not representable"@)
                                } else {
                                    Ok(q.num as int)
                                },
                            },
                        };
                        match alter {
                            Err(m) => Err(m),
                            Ok(a) => match doc.child_text(p, "octave"@) {
                                None => Err("measure "@ + n + ": <pitch> missing <octave>"@),
                                Some(o) => match parse_i32_spec(o) {
                                    None => Err("measure "@ + n + ": invalid <octave>"@),
                                    Some(oct) => match midi_of_spelling(step[0], a, oct) {
                                        None => Err("measure "@ + n + ": '"@ + step + "' (alter "@ + decimal(a)
                                            + ", octave "@ + decimal(oct) + ") is not a MIDI pitch"@),
                                        Some(m) => Ok(Some(m as i64)),
                                    },
                                },
                            },
                        }
                    },
                }
            },
        }
    }
}

/// Reads the pitch of a `<note>` (see [`note_midi_spec`]).
pub fn note_midi(doc: &XmlDoc, e: usize, n: &Vec<char>) -> (r: Result<Option<i64>, Vec<char>>)
    requires
        doc.wf(),
        e < doc.len(),
    ensures
        match note_midi_spec(*doc, e as int, n@) {
            Ok(m) => r == Ok::<Option<i64>, Vec<char>>(m),
            Err(m) => r matches Err(v) && v@ == m,
        },
        r matches Ok(Some(m)) ==> 0 <= m <= 127,
{
    if has_child(doc, e, "rest") {
        return Ok(None);
    }
    let p = match child_named(doc, e, "pitch") {
        Some(p) => p,
        None => { return Ok(None); },
    };
    let step = match child_text(doc, p, "step") {
        Some(s) => s,
        None => { return Err(cat3("measure ", n, ": <pitch> missing <step>")); },
    };
    if !(step.len() == 1 && (step[0] as u32) < 128) {
        return Err(cat5("measure ", n, ": invalid <step> '", &step, "'"));
    }
    let alter: i64 = match child_text(doc, p, "alter") {
        None => 0,
        Some(t) => match parse_decimal(&t) {
            None => { return Err(cat5("measure ", n, ": invalid <alter> '", &t, "'")); },
            Some(q) => if q.den != 1 {
                return Err(cat5("measure ", n, ": microtonal <alter> ", &t, " is not representable"));
            } else {
                q.num
            },
        },
    };
    let octave = match child_text(doc, p, "octave") {
        Some(o) => match parse_i32(&o) {
            Some(v) => v,
            None => { return Err(cat3("measure ", n, ": invalid <octave>")); },
        },
        None => { return Err(cat3("measure ", n, ": <pitch> missing <octave>")); },
    };
    match crate::names::midi_from_spelling(step[0], alter, octave as i64) {
        Some(m) => Ok(Some(m)),
        None => {
            let mut msg = cat5("measure ", n, ": '", &step, "' (alter ");
            let a = decimal_text(alter);
            crate::text::push_chars(&mut msg, &a);
            crate::text::push_str(&mut msg, ", octave ");
            let o = decimal_text(octave as i64);
            crate::text::push_chars(&mut msg, &o);
            crate::text::push_str(&mut msg, ") is not a MIDI pitch");
            Err(msg)
        },
    }
}

/// The voice label of a `<note>`: the trimmed text of its `<voice>`, or "1".
pub open spec fn voice_label_spec(doc: XmlDoc, e: int) -> Seq<char> {
    match doc.child_named(e, "voice"@) {
        Some(v) => match doc.text(v as int) {
            Some(t) => trim(t),
            None => trim("1"@),
        },
        None => trim("1"@),
    }
}

/// Reads the voice label of a `<note>` (see [`voice_label_spec`]).
pub fn voice_label(doc: &XmlDoc, e: usize) -> (r: Vec<char>)
    requires
        doc.wf(),
        e < doc.len(),
    ensures
        r@ == voice_label_spec(*doc, e as int),
{
    let one = crate::text::chars_of("1");
    match child_named(doc, e, "voice") {
        Some(v) => match text_of(doc, v) {
            Some(t) => trimmed(&t),
            None => trimmed(&one),
        },
        None => trimmed(&one),
    }
}

/// Whether some `<tie>` child of `e` has `type` equal to `kind`.
pub open spec fn has_tie(doc: XmlDoc, e: int, kind: Seq<char>) -> bool {
    exists|k: int| 0 <= k < doc.named(e, "tie"@).len()
        && doc.attribute(#[trigger] doc.named(e, "tie"@)[k] as int, "type"@) == Some(kind)
}

/// Reads the tie start and stop flags of a `<note>`.
pub fn tie_flags(doc: &XmlDoc, e: usize) -> (r: (bool, bool))
    requires
        doc.wf(),
        e < doc.len(),
    ensures
        r.0 == has_tie(*doc, e as int, "start"@),
        r.1 == has_tie(*doc, e as int, "stop"@),
{
    let ties = named_children(doc, e, "tie");
    let mut start = false;
    let mut stop = false;
    let mut k: usize = 0;
    while k < ties.len()
        invariant
            doc.wf(),
            ties@ == doc.named(e as int, "tie"@),
            forall|j: int| 0 <= j < ties@.len() ==> (#[trigger] ties@[j]) < doc.len(),
            k <= ties@.len(),
            start == exists|j: int| 0 <= j < k && doc.attribute(#[trigger] ties@[j] as int, "type"@) == Some("start"@),
            stop == exists|j: int| 0 <= j < k && doc.attribute(#[trigger] ties@[j] as int, "type"@) == Some("stop"@),
        decreases ties.len() - k,
    {
        let t = ties[k];
        if crate::xml::attribute_is(doc, t, "type", "start") {
            start = true;
        }
        if crate::xml::attribute_is(doc, t, "type", "stop") {
            stop = true;
        }
        k = k + 1;
    }
    (start, stop)
}

/// A positive tempo in the `tempo` attribute of node `s`.
pub open spec fn tempo_attr(doc: XmlDoc, s: int) -> Option<Rat> {
    match doc.attribute(s, "tempo"@) {
        Some(t) => match decimal_rat(t) {
            Some(q) => if q.num > 0 { Some(q) } else { None },
            None => None,
        },
        None => None,
    }
}

/// First node of `nodes`, from `k` on, that is a `<sound>` element.
pub open spec fn first_sound(doc: XmlDoc, nodes: Seq<usize>, k: int) -> Option<usize>
    decreases nodes.len() - k,
{
    if k < 0 || k >= nodes.len() {
        None
    } else if doc.is_tag(nodes[k] as int, "sound"@) {
        Some(nodes[k])
    } else {
        first_sound(doc, nodes, k + 1)
    }
}

/// The quarter-note tempo of a `<sound>` element, or of the first `<sound>`
/// inside a `<direction>`.
pub open spec fn tempo_from_spec(doc: XmlDoc, e: int) -> Option<Rat> {
    let sound = if doc.is_tag(e, "sound"@) { Some(e as usize) } else { first_sound(doc, doc.preorder(e), 0) };
    match sound {
        Some(s) => tempo_attr(doc, s as int),
        None => None,
    }
}

/// Reads the tempo of a `<sound>` or `<direction>` (see [`tempo_from_spec`]).
pub fn tempo_from(doc: &XmlDoc, e: usize) -> (r: Option<Rat>)
    requires
        doc.wf(),
        e < doc.len(),
    ensures
        r == tempo_from_spec(*doc, e as int),
        r matches Some(q) ==> q.wf(),
{
    let sound: Option<usize> = if doc.is_element[e] && crate::text::chars_eq(&doc.names[e], "sound") {
        Some(e)
    } else {
        let mut nodes: Vec<usize> = Vec::new();
        crate::xml::collect_preorder(doc, e, &mut nodes);
        proof {
            assert(nodes@ =~= doc.preorder(e as int));
            assert forall|j: int| 0 <= j < nodes@.len() implies (#[trigger] nodes@[j]) < doc.len() by {
                assert(nodes@[0 + j] == nodes@[j]);
            }
        }
        let mut k: usize = 0;
        let mut found: Option<usize> = None;
        while k < nodes.len() && found.is_none()
            invariant
                doc.wf(),
                nodes@ == doc.preorder(e as int),
                forall|j: int| 0 <= j < nodes@.len() ==> (#[trigger] nodes@[j]) < doc.len(),
                k <= nodes@.len(),
                found is None ==> first_sound(*doc, nodes@, 0) == first_sound(*doc, nodes@, k as int),
                found matches Some(c) ==> first_sound(*doc, nodes@, 0) == Some(c) && c < doc.len(),
            decreases nodes.len() - k,
        {
            let c = nodes[k];
            if doc.is_element[c] && crate::text::chars_eq(&doc.names[c], "sound") {
                found = Some(c);
            }
            k = k + 1;
        }
        found
    };
    match sound {
        Some(s) => {
            match attribute(doc, s, "tempo") {
                Some(t) => match parse_decimal(&t) {
                    Some(q) => if q.num > 0 { Some(q) } else { None },
                    None => None,
                },
                None => None,
            }
        },
        None => None,
    }
}

} // verus!

verus! {

// ---------------------------------------------------------------------------
// Per-part state

/// The note events of one voice, keyed by its numeric sort key and label.
pub struct Voice {
    pub sort: u32,
    pub label: Vec<char>,
    pub events: Vec<NoteEvent>,
}

/// A copy of a run of steps.
pub fn copy_steps(v: &Vec<crate::score::Step>) -> (r: Vec<crate::score::Step>)
    ensures
        r@ == v@,
{
    let mut r: Vec<crate::score::Step> = Vec::new();
    let mut i: usize = 0;
    while i < v.len()
        invariant
            i <= v@.len(),
            r@ == v@.take(i as int),
        decreases v.len() - i,
    {
        r.push(v[i]);
        i = i + 1;
        proof {
            assert(r@ =~= v@.take(i as int));
        }
    }
    proof {
        assert(v@.take(v@.len() as int) =~= v@);
    }
    r
}

/// A voice as plain values.
pub struct VoiceModel {
    pub sort: u32,
    pub label: Seq<char>,
    pub events: Seq<NoteEvent>,
}

impl Voice {
    pub open spec fn model(&self) -> VoiceModel {
        VoiceModel { sort: self.sort, label: self.label@, events: self.events@ }
    }
}

pub open spec fn voices_model(v: Seq<Voice>) -> Seq<VoiceModel> {
    Seq::new(v.len(), |i: int| v[i].model())
}

/// Lexicographic order of character sequences by code point (the order of
/// their UTF-8 bytes).
pub open spec fn text_less(a: Seq<char>, b: Seq<char>) -> bool
    decreases a.len(),
{
    if a.len() == 0 {
        b.len() > 0
    } else if b.len() == 0 {
        false
    } else if a[0] != b[0] {
        (a[0] as u32) < (b[0] as u32)
    } else {
        text_less(a.drop_first(), b.drop_first())
    }
}

/// Voices are ordered by sort key, then label.
pub open spec fn key_less(s1: u32, l1: Seq<char>, s2: u32, l2: Seq<char>) -> bool {
    s1 < s2 || (s1 == s2 && text_less(l1, l2))
}

/// Position of the voice keyed `(sort, label)`, from `k` on.
pub open spec fn find_voice(voices: Seq<VoiceModel>, sort: u32, label: Seq<char>, k: int) -> Option<int>
    decreases voices.len() - k,
{
    if k < 0 || k >= voices.len() {
        None
    } else if voices[k].sort == sort && voices[k].label == label {
        Some(k)
    } else {
        find_voice(voices, sort, label, k + 1)
    }
}

/// Where a new voice keyed `(sort, label)` goes: before the first voice, from
/// `k` on, with a greater key.
pub open spec fn insert_pos(voices: Seq<VoiceModel>, sort: u32, label: Seq<char>, k: int) -> int
    decreases voices.len() - k,
{
    if k < 0 || k >= voices.len() {
        voices.len() as int
    } else if key_less(sort, label, voices[k].sort, voices[k].label) {
        k
    } else {
        insert_pos(voices, sort, label, k + 1)
    }
}

/// Appends `e` to the voice keyed `(sort, label)`, creating that voice in
/// key order when it is new.
pub open spec fn voice_push(voices: Seq<VoiceModel>, sort: u32, label: Seq<char>, e: NoteEvent) -> Seq<VoiceModel> {
    match find_voice(voices, sort, label, 0) {
        Some(i) => voices.update(i, VoiceModel { events: voices[i].events.push(e), ..voices[i] }),
        None => voices.insert(insert_pos(voices, sort, label, 0), VoiceModel { sort, label, events: seq![e] }),
    }
}

fn text_less_exec(a: &Vec<char>, b: &Vec<char>) -> (r: bool)
    ensures
        r == text_less(a@, b@),
{
    let mut i: usize = 0;
    proof {
        assert(a@.skip(0) =~= a@);
        assert(b@.skip(0) =~= b@);
    }
    while i < a.len() && i < b.len() && a[i] == b[i]
        invariant
            i <= a@.len(),
            i <= b@.len(),
            text_less(a@, b@) == text_less(a@.skip(i as int), b@.skip(i as int)),
        decreases a.len() - i,
    {
        proof {
            assert(a@.skip(i as int).drop_first() =~= a@.skip(i + 1));
            assert(b@.skip(i as int).drop_first() =~= b@.skip(i + 1));
        }
        i = i + 1;
    }
    if i == a.len() {
        i < b.len()
    } else if i == b.len() {
        false
    } else {
        (a[i] as u32) < (b[i] as u32)
    }
}

/// Appends `e` to its voice (see [`voice_push`]).
pub fn push_voice_event(voices: &mut Vec<Voice>, sort: u32, label: Vec<char>, e: NoteEvent)
    ensures
        voices_model(final(voices)@) == voice_push(voices_model(old(voices)@), sort, label@, e),
{
    let ghost vm = voices_model(voices@);
    let mut k: usize = 0;
    while k < voices.len()
        invariant
            k <= voices@.len(),
            vm == voices_model(voices@),
            voices@ == old(voices)@,
            find_voice(vm, sort, label@, 0) == find_voice(vm, sort, label@, k as int),
        decreases voices.len() - k,
    {
        if voices[k].sort == sort && crate::text::chars_equal(&voices[k].label, &label) {
            let mut v = voices.remove(k);
            v.events.push(e);
            voices.insert(k, v);
            proof {
                assert(voices_model(voices@) =~= voice_push(vm, sort, label@, e));
            }
            return;
        }
        k = k + 1;
    }
    let mut pos: usize = 0;
    while pos < voices.len()
        && !(sort < voices[pos].sort || (sort == voices[pos].sort && text_less_exec(&label, &voices[pos].label)))
        invariant
            pos <= voices@.len(),
            vm == voices_model(voices@),
            voices@ == old(voices)@,
            find_voice(vm, sort, label@, 0) is None,
            insert_pos(vm, sort, label@, 0) == insert_pos(vm, sort, label@, pos as int),
        decreases voices.len() - pos,
    {
        pos = pos + 1;
    }
    let mut events: Vec<NoteEvent> = Vec::new();
    events.push(e);
    let ghost lab = label@;
    voices.insert(pos, Voice { sort, label, events });
    proof {
        assert(voices_model(voices@) =~= voice_push(vm, sort, lab, e));
    }
}

} // verus!

verus! {

/// What has been read of one `<part>`.
pub struct PartBuild {
    pub voices: Vec<Voice>,
    /// Measure lengths in quarter notes.
    pub capacities: Vec<Rat>,
    /// Tempo marks `(position, quarter-note BPM)` in document order.
    pub tempo: Vec<(Rat, Rat)>,
    /// Pedal marks `(position, kind)` in document order.
    pub pedal: Vec<(Rat, PedalKind)>,
    /// The measure number of each pedal mark.
    pub pedal_measures: Vec<Vec<char>>,
    pub divisions: i64,
    pub time: TimeSignature,
    pub seen_time: bool,
    /// Position of the current measure's barline.
    pub start: Rat,
    pub warnings: Vec<Vec<char>>,
    /// Grace and cue notes skipped.
    pub grace: usize,
}

/// [`PartBuild`] as plain values.
pub struct PartModel {
    pub voices: Seq<VoiceModel>,
    pub capacities: Seq<Rat>,
    pub tempo: Seq<(Rat, Rat)>,
    pub pedal: Seq<(Rat, PedalKind)>,
    pub pedal_measures: Seq<Seq<char>>,
    pub divisions: i64,
    pub time: TimeSignature,
    pub seen_time: bool,
    pub start: Rat,
    pub warnings: Seq<Seq<char>>,
    pub grace: usize,
}

pub open spec fn texts(v: Seq<Vec<char>>) -> Seq<Seq<char>> {
    Seq::new(v.len(), |i: int| v[i]@)
}

impl PartBuild {
    pub open spec fn model(&self) -> PartModel {
        PartModel {
            voices: voices_model(self.voices@),
            capacities: self.capacities@,
            tempo: self.tempo@,
            pedal: self.pedal@,
            pedal_measures: texts(self.pedal_measures@),
            divisions: self.divisions,
            time: self.time,
            seen_time: self.seen_time,
            start: self.start,
            warnings: texts(self.warnings@),
            grace: self.grace,
        }
    }
}

/// Every time value is a well-formed rational, every pitch a MIDI note, and
/// the divisions and time signature are positive.
pub open spec fn part_wf(p: PartModel) -> bool {
    &&& p.divisions > 0
    &&& p.time.beats_per_measure > 0
    &&& p.time.beat_unit > 0
    &&& p.start.wf()
    &&& forall|i: int| 0 <= i < p.capacities.len() ==> (#[trigger] p.capacities[i]).wf()
    &&& forall|i: int| 0 <= i < p.tempo.len() ==> (#[trigger] p.tempo[i]).0.wf() && p.tempo[i].1.wf()
    &&& forall|i: int| 0 <= i < p.pedal.len() ==> (#[trigger] p.pedal[i]).0.wf()
    &&& p.pedal_measures.len() == p.pedal.len()
    &&& forall|v: int, i: int| 0 <= v < p.voices.len() && 0 <= i < p.voices[v].events.len()
        ==> (#[trigger] p.voices[v].events[i]).wf()
}

/// The reading position inside a measure: the cursor, the furthest point
/// reached, and the onset of the last non-chord note.
#[derive(Clone, Copy, Debug, PartialEq, Eq, Structural)]
pub struct Cursor {
    pub at: Rat,
    pub high: Rat,
    pub chord: Option<Rat>,
}

pub open spec fn cursor_wf(c: Cursor) -> bool {
    &&& c.at.wf()
    &&& c.high.wf()
    &&& c.chord matches Some(o) ==> o.wf()
}

/// The larger of two rationals (the first on a tie).
pub open spec fn later(a: Rat, b: Rat) -> Rat {
    if a.lt_value(b) { b } else { a }
}

pub open spec fn overflow_msg(n: Seq<char>) -> Seq<char> {
    "measure "@ + n + ": time values overflow"@
}

// ---------------------------------------------------------------------------
// `<attributes>`

pub open spec fn time_change_msg(beats: int, unit: int, n: Seq<char>) -> Seq<char> {
    "time signature changes to "@ + decimal(beats) + "/"@ + decimal(unit) + " at measure "@ + n
        + "; fugue.score.v1 metadata records only the initial one (measure lengths on the grid stay exact)"@
}

/// A valid `<time>` (positive beats and beat type) becomes the part's time
/// signature, with a warning when it changes an earlier one.
pub open spec fn time_update(doc: XmlDoc, p: PartModel, e: int, n: Seq<char>) -> PartModel {
    match doc.child_named(e, "time"@) {
        None => p,
        Some(tm) => match (doc.child_text(tm as int, "beats"@), doc.child_text(tm as int, "beat-type"@)) {
            (Some(b), Some(u)) => match (parse_u32_spec(b), parse_u32_spec(u)) {
                (Some(bv), Some(uv)) => if bv > 0 && uv > 0 {
                    let next = TimeSignature { beats_per_measure: bv as u32, beat_unit: uv as u32 };
                    PartModel {
                        warnings: if p.seen_time && next != p.time {
                            p.warnings.push(time_change_msg(bv, uv, n))
                        } else {
                            p.warnings
                        },
                        seen_time: true,
                        time: next,
                        ..p
                    }
                } else {
                    p
                },
                _ => p,
            },
            _ => p,
        },
    }
}

/// `<attributes>`: `<divisions>` and `<time>`.
pub open spec fn attributes_step(doc: XmlDoc, p: PartModel, e: int, n: Seq<char>) -> Result<PartModel, Seq<char>> {
    let div: Result<i64, Seq<char>> = match doc.child_text(e, "divisions"@) {
        None => Ok(p.divisions),
        Some(t) => match parse_i64_spec(t) {
            None => Err("measure "@ + n + ": invalid <divisions> '"@ + t + "'"@),
            Some(v) => if v <= 0 {
                Err("measure "@ + n + ": <divisions> must be positive"@)
            } else {
                Ok(v as i64)
            },
        },
    };
    match div {
        Err(m) => Err(m),
        Ok(d) => Ok(time_update(doc, PartModel { divisions: d, ..p }, e, n)),
    }
}

fn attributes_apply(doc: &XmlDoc, p: &mut PartBuild, e: usize, n: &Vec<char>) -> (r: Result<(), Vec<char>>)
    requires
        doc.wf(),
        e < doc.len(),
        part_wf(old(p).model()),
    ensures
        match attributes_step(*doc, old(p).model(), e as int, n@) {
            Ok(m) => r is Ok && final(p).model() == m,
            Err(m) => r matches Err(v) && v@ == m,
        },
        r is Ok ==> part_wf(final(p).model()),
{
    match child_text(doc, e, "divisions") {
        None => {},
        Some(t) => match parse_i64(&t) {
            None => { return Err(cat5("measure ", n, ": invalid <divisions> '", &t, "'")); },
            Some(v) => {
                if v <= 0 {
                    return Err(cat3("measure ", n, ": <divisions> must be positive"));
                }
                p.divisions = v;
            },
        },
    }
    let ghost mid = p.model();
    match child_named(doc, e, "time") {
        None => {},
        Some(tm) => {
            match (child_text(doc, tm, "beats"), child_text(doc, tm, "beat-type")) {
                (Some(b), Some(u)) => match (parse_u32(&b), parse_u32(&u)) {
                    (Some(bv), Some(uv)) => {
                        if bv > 0 && uv > 0 {
                            let next = TimeSignature { beats_per_measure: bv, beat_unit: uv };
                            if p.seen_time && next != p.time {
                                let mut w = crate::text::cat2("time signature changes to ", &decimal_text(bv as i64));
                                crate::text::push_str(&mut w, "/");
                                crate::text::push_chars(&mut w, &decimal_text(uv as i64));
                                crate::text::push_str(&mut w, " at measure ");
                                crate::text::push_chars(&mut w, n);
                                crate::text::push_str(&mut w, "; fugue.score.v1 metadata records only the initial one (measure lengths on the grid stay exact)");
                                let ghost before = p.warnings@;
                                p.warnings.push(w);
                                proof {
                                    assert(texts(p.warnings@) =~= texts(before).push(time_change_msg(bv as int, uv as int, n@)));
                                }
                            }
                            p.seen_time = true;
                            p.time = next;
                        }
                    },
                    _ => {},
                },
                _ => {},
            }
        },
    }
    proof {
        assert(p.model() == time_update(*doc, mid, e as int, n@));
    }
    Ok(())
}

} // verus!

verus! {

// ---------------------------------------------------------------------------
// `<backup>` and `<forward>`

/// Moves the cursor back (`<backup>`) or forward by the element's duration.
pub open spec fn move_step(doc: XmlDoc, p: PartModel, c: Cursor, e: int, n: Seq<char>) -> Result<Cursor, Seq<char>> {
    match duration_spec(doc, e, n, p.divisions) {
        Err(m) => Err(m),
        Ok(d) => {
            let moved = if doc.is_tag(e, "backup"@) { c.at.minus(d) } else { c.at.plus(d) };
            match moved {
                None => Err(overflow_msg(n)),
                Some(at) => if at.num < 0 {
                    Err("measure "@ + n + ": <backup> moved the cursor before the barline"@)
                } else {
                    Ok(Cursor { at, high: later(c.high, at), ..c })
                },
            }
        },
    }
}

fn move_apply(doc: &XmlDoc, p: &PartBuild, c: Cursor, e: usize, n: &Vec<char>) -> (r: Result<Cursor, Vec<char>>)
    requires
        doc.wf(),
        e < doc.len(),
        part_wf(p.model()),
        cursor_wf(c),
    ensures
        match move_step(*doc, p.model(), c, e as int, n@) {
            Ok(m) => r == Ok::<Cursor, Vec<char>>(m) && cursor_wf(m),
            Err(m) => r matches Err(v) && v@ == m,
        },
{
    let d = required_duration(doc, e, n, p.divisions)?;
    let backup = doc.is_element[e] && crate::text::chars_eq(&doc.names[e], "backup");
    let moved = if backup { c.at.sub(d) } else { c.at.add(d) };
    proof {
        crate::rat::lemma_ops_wf(c.at, d);
    }
    match moved {
        None => Err(cat3("measure ", n, ": time values overflow")),
        Some(at) => {
            if at.num < 0 {
                return Err(cat3("measure ", n, ": <backup> moved the cursor before the barline"));
            }
            Ok(Cursor { at, high: c.high.max(at), ..c })
        },
    }
}

// ---------------------------------------------------------------------------
// `<note>`

/// Reads one `<note>`: grace and cue notes are counted and skipped; a
/// pitched note joins its voice at the measure position plus its onset (the
/// cursor, or the last note's onset for a `<chord/>` member); a non-chord
/// note advances the cursor by its duration.
pub open spec fn note_step(doc: XmlDoc, p: PartModel, c: Cursor, e: int, n: Seq<char>) -> Result<(PartModel, Cursor), Seq<char>> {
    if doc.has_child(e, "grace"@) || doc.has_child(e, "cue"@) {
        Ok((PartModel { grace: if p.grace < usize::MAX { (p.grace + 1) as usize } else { p.grace }, ..p }, c))
    } else {
        match duration_spec(doc, e, n, p.divisions) {
            Err(m) => Err(m),
            Ok(d) => {
                let is_chord = doc.has_child(e, "chord"@);
                let onset: Result<Rat, Seq<char>> = if is_chord {
                    match c.chord {
                        Some(o) => Ok(o),
                        None => Err("measure "@ + n + ": <chord/> note without a preceding note"@),
                    }
                } else {
                    Ok(c.at)
                };
                match onset {
                    Err(m) => Err(m),
                    Ok(onset) => match note_midi_spec(doc, e, n) {
                        Err(m) => Err(m),
                        Ok(midi) => {
                            let p2: Result<PartModel, Seq<char>> = match midi {
                                None => Ok(p),
                                Some(m) => match p.start.plus(onset) {
                                    None => Err(overflow_msg(n)),
                                    Some(at) => {
                                        let label = voice_label_spec(doc, e);
                                        let sort = match parse_u32_spec(label) {
                                            Some(v) => v as u32,
                                            None => u32::MAX,
                                        };
                                        let ev = NoteEvent {
                                            onset: at,
                                            duration: d,
                                            midi: m,
                                            tie_start: has_tie(doc, e, "start"@),
                                            tie_stop: has_tie(doc, e, "stop"@),
                                        };
                                        Ok(PartModel { voices: voice_push(p.voices, sort, label, ev), ..p })
                                    },
                                },
                            };
                            match p2 {
                                Err(m) => Err(m),
                                Ok(p2) => if is_chord {
                                    Ok((p2, c))
                                } else {
                                    match c.at.plus(d) {
                                        None => Err(overflow_msg(n)),
                                        Some(at) => Ok((p2, Cursor { at, high: later(c.high, at), chord: Some(c.at) })),
                                    }
                                },
                            }
                        },
                    },
                }
            },
        }
    }
}

proof fn lemma_voice_push_wf(voices: Seq<VoiceModel>, sort: u32, label: Seq<char>, e: NoteEvent)
    requires
        forall|v: int, i: int| 0 <= v < voices.len() && 0 <= i < voices[v].events.len()
            ==> (#[trigger] voices[v].events[i]).wf(),
        e.wf(),
    ensures
        ({
            let w = voice_push(voices, sort, label, e);
            forall|v: int, i: int| 0 <= v < w.len() && 0 <= i < w[v].events.len()
                ==> (#[trigger] w[v].events[i]).wf()
        }),
{
    let w = voice_push(voices, sort, label, e);
    match find_voice(voices, sort, label, 0) {
        Some(j) => {
            lemma_find_voice(voices, sort, label, 0);
            assert forall|v: int, i: int| 0 <= v < w.len() && 0 <= i < w[v].events.len()
                implies (#[trigger] w[v].events[i]).wf() by {
                if v == j {
                    if i < voices[j].events.len() {
                        assert(w[v].events[i] == voices[j].events[i]);
                    }
                } else {
                    assert(w[v] == voices[v]);
                }
            }
        },
        None => {
            let pos = insert_pos(voices, sort, label, 0);
            lemma_insert_pos(voices, sort, label, 0);
            assert forall|v: int, i: int| 0 <= v < w.len() && 0 <= i < w[v].events.len()
                implies (#[trigger] w[v].events[i]).wf() by {
                if v < pos {
                    assert(w[v] == voices[v]);
                } else if v > pos {
                    assert(w[v] == voices[v - 1]);
                }
            }
        },
    }
}

proof fn lemma_find_voice(voices: Seq<VoiceModel>, sort: u32, label: Seq<char>, k: int)
    requires
        0 <= k,
    ensures
        find_voice(voices, sort, label, k) matches Some(j) ==> k <= j < voices.len(),
    decreases voices.len() - k,
{
    if k < voices.len() && !(voices[k].sort == sort && voices[k].label == label) {
        lemma_find_voice(voices, sort, label, k + 1);
    }
}

proof fn lemma_insert_pos(voices: Seq<VoiceModel>, sort: u32, label: Seq<char>, k: int)
    requires
        0 <= k,
    ensures
        k <= insert_pos(voices, sort, label, k) <= voices.len() || (k > voices.len() && insert_pos(voices, sort, label, k) == voices.len()),
    decreases voices.len() - k,
{
    if k < voices.len() && !key_less(sort, label, voices[k].sort, voices[k].label) {
        lemma_insert_pos(voices, sort, label, k + 1);
    }
}

fn note_apply(doc: &XmlDoc, p: &mut PartBuild, c: Cursor, e: usize, n: &Vec<char>) -> (r: Result<Cursor, Vec<char>>)
    requires
        doc.wf(),
        e < doc.len(),
        part_wf(old(p).model()),
        cursor_wf(c),
    ensures
        match note_step(*doc, old(p).model(), c, e as int, n@) {
            Ok(m) => r == Ok::<Cursor, Vec<char>>(m.1) && final(p).model() == m.0 && cursor_wf(m.1)
                && part_wf(m.0),
            Err(m) => r matches Err(v) && v@ == m,
        },
{
    if has_child(doc, e, "grace") || has_child(doc, e, "cue") {
        if p.grace < usize::MAX {
            p.grace = p.grace + 1;
        }
        return Ok(c);
    }
    let d = required_duration(doc, e, n, p.divisions)?;
    let is_chord = has_child(doc, e, "chord");
    let onset = if is_chord {
        match c.chord {
            Some(o) => o,
            None => { return Err(cat3("measure ", n, ": <chord/> note without a preceding note")); },
        }
    } else {
        c.at
    };
    let midi = note_midi(doc, e, n)?;
    match midi {
        None => {},
        Some(m) => {
            proof {
                crate::rat::lemma_ops_wf(p.start, onset);
            }
            let at = match p.start.add(onset) {
                Some(at) => at,
                None => { return Err(cat3("measure ", n, ": time values overflow")); },
            };
            let label = voice_label(doc, e);
            let sort = match parse_u32(&label) {
                Some(v) => v,
                None => u32::MAX,
            };
            let (tie_start, tie_stop) = tie_flags(doc, e);
            let ev = NoteEvent { onset: at, duration: d, midi: m, tie_start, tie_stop };
            proof {
                lemma_voice_push_wf(voices_model(p.voices@), sort, label@, ev);
            }
            push_voice_event(&mut p.voices, sort, label, ev);
        },
    }
    if is_chord {
        return Ok(c);
    }
    proof {
        crate::rat::lemma_ops_wf(c.at, d);
    }
    match c.at.add(d) {
        None => Err(cat3("measure ", n, ": time values overflow")),
        Some(at) => Ok(Cursor { at, high: c.high.max(at), chord: Some(c.at) }),
    }
}

} // verus!

verus! {

// ---------------------------------------------------------------------------
// `<direction>` and `<sound>`

/// The children named `name` of each node of `list`, in order.
pub open spec fn named_of(doc: XmlDoc, list: Seq<usize>, name: Seq<char>) -> Seq<usize>
    decreases list.len(),
{
    if list.len() == 0 {
        Seq::empty()
    } else {
        named_of(doc, list.drop_last(), name) + doc.named(list.last() as int, name)
    }
}

/// Text words that ask for a gradual tempo change (rit., rall., accel.).
pub open spec fn is_gradual(t: Seq<char>) -> bool {
    crate::text::starts_with_lower(t, "rit"@) || crate::text::starts_with_lower(t, "rall"@)
        || crate::text::starts_with_lower(t, "accel"@)
}

pub open spec fn gradual_msg(t: Seq<char>, n: Seq<char>) -> Seq<char> {
    "gradual tempo change '"@ + t + "' at measure "@ + n + " has no target tempo; only the marked tempos are kept"@
}

/// Warnings for the `<words>` elements that name a gradual tempo change.
pub open spec fn gradual_warnings(doc: XmlDoc, words: Seq<usize>, n: Seq<char>) -> Seq<Seq<char>>
    decreases words.len(),
{
    if words.len() == 0 {
        Seq::empty()
    } else {
        let rest = gradual_warnings(doc, words.drop_last(), n);
        match doc.text(words.last() as int) {
            Some(t) => if is_gradual(trim(t)) { rest.push(gradual_msg(trim(t), n)) } else { rest },
            None => rest,
        }
    }
}

/// What a `<pedal>` element's `type` asks for, when it is a start, stop or
/// change.
pub open spec fn pedal_kind(doc: XmlDoc, e: int) -> Option<PedalKind> {
    let t = doc.attribute(e, "type"@);
    if t == Some("start"@) {
        Some(PedalKind::Start)
    } else if t == Some("stop"@) {
        Some(PedalKind::Stop)
    } else if t == Some("change"@) {
        Some(PedalKind::Change)
    } else {
        None
    }
}

/// The pedal marks of a list of `<pedal>` elements.
pub open spec fn pedal_kinds(doc: XmlDoc, pedals: Seq<usize>) -> Seq<PedalKind>
    decreases pedals.len(),
{
    if pedals.len() == 0 {
        Seq::empty()
    } else {
        let rest = pedal_kinds(doc, pedals.drop_last());
        match pedal_kind(doc, pedals.last() as int) {
            Some(k) => rest.push(k),
            None => rest,
        }
    }
}

/// `<direction>` / `<sound>`: a tempo mark at the current position; for a
/// `<direction>`, warnings for gradual tempo words and its pedal marks.
pub open spec fn direction_step(doc: XmlDoc, p: PartModel, c: Cursor, e: int, n: Seq<char>) -> Result<PartModel, Seq<char>> {
    let pos = p.start.plus(c.at);
    let with_tempo: Result<PartModel, Seq<char>> = match tempo_from_spec(doc, e) {
        None => Ok(p),
        Some(bpm) => match pos {
            None => Err(overflow_msg(n)),
            Some(at) => Ok(PartModel { tempo: p.tempo.push((at, bpm)), ..p }),
        },
    };
    match with_tempo {
        Err(m) => Err(m),
        Ok(p1) => if doc.is_tag(e, "direction"@) {
            let types = doc.named(e, "direction-type"@);
            let warnings = gradual_warnings(doc, named_of(doc, types, "words"@), n);
            let kinds = pedal_kinds(doc, named_of(doc, types, "pedal"@));
            let p2 = PartModel { warnings: p1.warnings + warnings, ..p1 };
            if kinds.len() == 0 {
                Ok(p2)
            } else {
                match pos {
                    None => Err(overflow_msg(n)),
                    Some(at) => Ok(PartModel {
                        pedal: p2.pedal + Seq::new(kinds.len(), |i: int| (at, kinds[i])),
                        pedal_measures: p2.pedal_measures + Seq::new(kinds.len(), |i: int| n),
                        ..p2
                    }),
                }
            }
        } else {
            Ok(p1)
        },
    }
}

fn named_of_exec(doc: &XmlDoc, list: &Vec<usize>, name: &str) -> (r: Vec<usize>)
    requires
        doc.wf(),
        forall|j: int| 0 <= j < list@.len() ==> (#[trigger] list@[j]) < doc.len(),
    ensures
        r@ == named_of(*doc, list@, name@),
        forall|j: int| 0 <= j < r@.len() ==> (#[trigger] r@[j]) < doc.len(),
{
    let mut r: Vec<usize> = Vec::new();
    let mut k: usize = 0;
    proof {
        assert(list@.take(0) =~= Seq::<usize>::empty());
    }
    while k < list.len()
        invariant
            doc.wf(),
            forall|j: int| 0 <= j < list@.len() ==> (#[trigger] list@[j]) < doc.len(),
            k <= list@.len(),
            r@ == named_of(*doc, list@.take(k as int), name@),
            forall|j: int| 0 <= j < r@.len() ==> (#[trigger] r@[j]) < doc.len(),
        decreases list.len() - k,
    {
        let more = named_children(doc, list[k], name);
        let mut j: usize = 0;
        let ghost before = r@;
        while j < more.len()
            invariant
                j <= more@.len(),
                r@ == before + more@.take(j as int),
                forall|i: int| 0 <= i < more@.len() ==> (#[trigger] more@[i]) < doc.len(),
                forall|i: int| 0 <= i < before.len() ==> (#[trigger] before[i]) < doc.len(),
                forall|i: int| 0 <= i < r@.len() ==> (#[trigger] r@[i]) < doc.len(),
            decreases more.len() - j,
        {
            r.push(more[j]);
            j = j + 1;
            proof {
                assert(r@ =~= before + more@.take(j as int));
            }
        }
        proof {
            assert(more@.take(more@.len() as int) =~= more@);
            assert(list@.take(k + 1).drop_last() =~= list@.take(k as int));
        }
        k = k + 1;
    }
    proof {
        assert(list@.take(list@.len() as int) =~= list@);
    }
    r
}

fn gradual_apply(doc: &XmlDoc, words: &Vec<usize>, n: &Vec<char>, out: &mut Vec<Vec<char>>)
    requires
        doc.wf(),
        forall|j: int| 0 <= j < words@.len() ==> (#[trigger] words@[j]) < doc.len(),
    ensures
        texts(final(out)@) == texts(old(out)@) + gradual_warnings(*doc, words@, n@),
{
    let mut k: usize = 0;
    proof {
        assert(words@.take(0) =~= Seq::<usize>::empty());
        assert(texts(out@) =~= texts(old(out)@) + Seq::<Seq<char>>::empty());
    }
    while k < words.len()
        invariant
            doc.wf(),
            forall|j: int| 0 <= j < words@.len() ==> (#[trigger] words@[j]) < doc.len(),
            k <= words@.len(),
            texts(out@) == texts(old(out)@) + gradual_warnings(*doc, words@.take(k as int), n@),
        decreases words.len() - k,
    {
        let w = words[k];
        proof {
            assert(words@.take(k + 1).drop_last() =~= words@.take(k as int));
        }
        match text_of(doc, w) {
            Some(t) => {
                let tt = trimmed(&t);
                if crate::text::has_prefix_lower(&tt, "rit") || crate::text::has_prefix_lower(&tt, "rall")
                    || crate::text::has_prefix_lower(&tt, "accel") {
                    let mut msg = crate::text::cat2("gradual tempo change '", &tt);
                    crate::text::push_str(&mut msg, "' at measure ");
                    crate::text::push_chars(&mut msg, n);
                    crate::text::push_str(&mut msg, " has no target tempo; only the marked tempos are kept");
                    let ghost before = out@;
                    out.push(msg);
                    proof {
                        assert(texts(out@) =~= texts(before).push(gradual_msg(tt@, n@)));
                    }
                }
            },
            None => {},
        }
        k = k + 1;
    }
    proof {
        assert(words@.take(words@.len() as int) =~= words@);
    }
}

fn pedal_kinds_exec(doc: &XmlDoc, pedals: &Vec<usize>) -> (r: Vec<PedalKind>)
    requires
        doc.wf(),
        forall|j: int| 0 <= j < pedals@.len() ==> (#[trigger] pedals@[j]) < doc.len(),
    ensures
        r@ == pedal_kinds(*doc, pedals@),
{
    let mut r: Vec<PedalKind> = Vec::new();
    let mut k: usize = 0;
    proof {
        assert(pedals@.take(0) =~= Seq::<usize>::empty());
    }
    while k < pedals.len()
        invariant
            doc.wf(),
            forall|j: int| 0 <= j < pedals@.len() ==> (#[trigger] pedals@[j]) < doc.len(),
            k <= pedals@.len(),
            r@ == pedal_kinds(*doc, pedals@.take(k as int)),
        decreases pedals.len() - k,
    {
        let e = pedals[k];
        proof {
            assert(pedals@.take(k + 1).drop_last() =~= pedals@.take(k as int));
        }
        if crate::xml::attribute_is(doc, e, "type", "start") {
            r.push(PedalKind::Start);
        } else if crate::xml::attribute_is(doc, e, "type", "stop") {
            r.push(PedalKind::Stop);
        } else if crate::xml::attribute_is(doc, e, "type", "change") {
            r.push(PedalKind::Change);
        }
        k = k + 1;
    }
    proof {
        assert(pedals@.take(pedals@.len() as int) =~= pedals@);
    }
    r
}

fn direction_apply(doc: &XmlDoc, p: &mut PartBuild, c: Cursor, e: usize, n: &Vec<char>) -> (r: Result<(), Vec<char>>)
    requires
        doc.wf(),
        e < doc.len(),
        part_wf(old(p).model()),
        cursor_wf(c),
    ensures
        match direction_step(*doc, old(p).model(), c, e as int, n@) {
            Ok(m) => r is Ok && final(p).model() == m && part_wf(m),
            Err(m) => r matches Err(v) && v@ == m,
        },
{
    proof {
        crate::rat::lemma_ops_wf(p.start, c.at);
    }
    let ghost p0 = p.model();
    let pos = p.start.add(c.at);
    match tempo_from(doc, e) {
        None => {},
        Some(bpm) => match pos {
            None => { return Err(cat3("measure ", n, ": time values overflow")); },
            Some(at) => {
                p.tempo.push((at, bpm));
            },
        },
    }
    let ghost p1 = p.model();
    proof {
        assert(direction_step(*doc, p0, c, e as int, n@) == (if doc.is_tag(e as int, "direction"@) {
            let types = doc.named(e as int, "direction-type"@);
            let warnings = gradual_warnings(*doc, named_of(*doc, types, "words"@), n@);
            let kinds = pedal_kinds(*doc, named_of(*doc, types, "pedal"@));
            let p2 = PartModel { warnings: p1.warnings + warnings, ..p1 };
            if kinds.len() == 0 {
                Ok(p2)
            } else {
                match pos {
                    None => Err(overflow_msg(n@)),
                    Some(at) => Ok(PartModel {
                        pedal: p2.pedal + Seq::new(kinds.len(), |i: int| (at, kinds[i])),
                        pedal_measures: p2.pedal_measures + Seq::new(kinds.len(), |i: int| n@),
                        ..p2
                    }),
                }
            }
        } else {
            Ok(p1)
        }));
        assert(part_wf(p1));
    }
    if doc.is_element[e] && crate::text::chars_eq(&doc.names[e], "direction") {
        let types = named_children(doc, e, "direction-type");
        let words = named_of_exec(doc, &types, "words");
        gradual_apply(doc, &words, n, &mut p.warnings);
        let pedals = named_of_exec(doc, &types, "pedal");
        let kinds = pedal_kinds_exec(doc, &pedals);
        if kinds.len() > 0 {
            match pos {
                None => { return Err(cat3("measure ", n, ": time values overflow")); },
                Some(at) => {
                    let ghost pm = p.pedal@;
                    let ghost mm = texts(p.pedal_measures@);
                    let ghost pw = p.model();
                    let mut k: usize = 0;
                    while k < kinds.len()
                        invariant
                            k <= kinds@.len(),
                            voices_model(p.voices@) == pw.voices,
                            p.capacities@ == pw.capacities,
                            p.tempo@ == pw.tempo,
                            p.divisions == pw.divisions,
                            p.time == pw.time,
                            p.seen_time == pw.seen_time,
                            p.start == pw.start,
                            texts(p.warnings@) == pw.warnings,
                            p.grace == pw.grace,
                            p.pedal@ == pm + Seq::new(k as nat, |i: int| (at, kinds@[i])),
                            texts(p.pedal_measures@) == mm + Seq::new(k as nat, |i: int| n@),
                        decreases kinds.len() - k,
                    {
                        p.pedal.push((at, kinds[k]));
                        let ghost before = p.pedal_measures@;
                        p.pedal_measures.push(crate::text::copy_chars(n));
                        k = k + 1;
                        proof {
                            assert(p.pedal@ =~= pm + Seq::new(k as nat, |i: int| (at, kinds@[i])));
                            assert(texts(p.pedal_measures@) =~= texts(before).push(n@));
                            assert(texts(p.pedal_measures@) =~= mm + Seq::new(k as nat, |i: int| n@));
                        }
                    }
                    proof {
                        let expect = PartModel {
                            pedal: pm + Seq::new(kinds@.len(), |i: int| (at, kinds@[i])),
                            pedal_measures: mm + Seq::new(kinds@.len(), |i: int| n@),
                            warnings: p1.warnings + gradual_warnings(*doc, words@, n@),
                            ..p1
                        };
                        assert(p.model().pedal =~= expect.pedal);
                        assert(p.model().pedal_measures =~= expect.pedal_measures);
                        assert(p.model() == expect);
                        assert forall|i: int| 0 <= i < p.model().pedal.len() implies (#[trigger] p.model().pedal[i]).0.wf() by {
                            if i >= pm.len() {
                                assert(p.model().pedal[i].0 == at);
                            }
                        }
                    }
                },
            }
        } else {
            proof {
                assert(p.model() == PartModel { warnings: p1.warnings + gradual_warnings(*doc, words@, n@), ..p1 });
            }
        }
    }
    Ok(())
}

} // verus!

verus! {

// ---------------------------------------------------------------------------
// Measures and parts

/// One element of a measure.
pub open spec fn element_step(doc: XmlDoc, p: PartModel, c: Cursor, e: int, n: Seq<char>) -> Result<(PartModel, Cursor), Seq<char>> {
    let name = doc.names@[e]@;
    if name == "attributes"@ {
        match attributes_step(doc, p, e, n) {
            Ok(p2) => Ok((p2, c)),
            Err(m) => Err(m),
        }
    } else if name == "backup"@ || name == "forward"@ {
        match move_step(doc, p, c, e, n) {
            Ok(c2) => Ok((p, c2)),
            Err(m) => Err(m),
        }
    } else if name == "note"@ {
        note_step(doc, p, c, e, n)
    } else if name == "direction"@ || name == "sound"@ {
        match direction_step(doc, p, c, e, n) {
            Ok(p2) => Ok((p2, c)),
            Err(m) => Err(m),
        }
    } else {
        Ok((p, c))
    }
}

/// The cursor at a barline.
pub open spec fn barline() -> Cursor {
    Cursor { at: Rat { num: 0, den: 1 }, high: Rat { num: 0, den: 1 }, chord: None }
}

/// The first `k` elements of a measure, read from `p`.
pub open spec fn measure_fold(doc: XmlDoc, p: PartModel, elems: Seq<usize>, n: Seq<char>, k: nat) -> Result<(PartModel, Cursor), Seq<char>>
    decreases k,
{
    if k == 0 || k > elems.len() {
        Ok((p, barline()))
    } else {
        match measure_fold(doc, p, elems, n, (k - 1) as nat) {
            Err(m) => Err(m),
            Ok(st) => element_step(doc, st.0, st.1, elems[k - 1] as int, n),
        }
    }
}

/// The measure's length: the time signature's, or for a pickup
/// (`implicit="yes"`) the content's; the content must fit and the length be
/// positive. The measure is appended and the barline moves past it.
pub open spec fn finish_measure(doc: XmlDoc, p: PartModel, c: Cursor, m: int, n: Seq<char>) -> Result<PartModel, Seq<char>> {
    let nominal = Rat::from_pair(reduce(p.time.beats_per_measure * 4, p.time.beat_unit as int));
    let capacity = if doc.attribute(m, "implicit"@) == Some("yes"@) { c.high } else { nominal };
    if capacity.lt_value(c.high) {
        Err("measure "@ + n + ": content is longer than the "@ + decimal(p.time.beats_per_measure as int) + "/"@
            + decimal(p.time.beat_unit as int) + " time signature allows"@)
    } else if capacity.num <= 0 {
        Err("measure "@ + n + ": empty implicit measure"@)
    } else {
        match p.start.plus(capacity) {
            None => Err(overflow_msg(n)),
            Some(s) => Ok(PartModel { start: s, capacities: p.capacities.push(capacity), ..p }),
        }
    }
}

/// The `number` of a measure, or "?".
pub open spec fn measure_number(doc: XmlDoc, m: int) -> Seq<char> {
    match doc.attribute(m, "number"@) {
        Some(t) => t,
        None => "?"@,
    }
}

/// One `<measure>`.
pub open spec fn measure_spec(doc: XmlDoc, p: PartModel, m: int) -> Result<PartModel, Seq<char>> {
    let n = measure_number(doc, m);
    let elems = doc.elements(m);
    match measure_fold(doc, p, elems, n, elems.len()) {
        Err(msg) => Err(msg),
        Ok(st) => finish_measure(doc, st.0, st.1, m, n),
    }
}

/// A part before its first measure.
pub open spec fn initial_part() -> PartModel {
    PartModel {
        voices: Seq::empty(),
        capacities: Seq::empty(),
        tempo: Seq::empty(),
        pedal: Seq::empty(),
        pedal_measures: Seq::empty(),
        divisions: 1,
        time: TimeSignature { beats_per_measure: 4, beat_unit: 4 },
        seen_time: false,
        start: Rat { num: 0, den: 1 },
        warnings: Seq::empty(),
        grace: 0,
    }
}

/// The first `k` measures of a part.
pub open spec fn part_fold(doc: XmlDoc, measures: Seq<usize>, k: nat) -> Result<PartModel, Seq<char>>
    decreases k,
{
    if k == 0 || k > measures.len() {
        Ok(initial_part())
    } else {
        match part_fold(doc, measures, (k - 1) as nat) {
            Err(m) => Err(m),
            Ok(p) => measure_spec(doc, p, measures[k - 1] as int),
        }
    }
}

/// A `<part>` read measure by measure.
pub open spec fn part_spec(doc: XmlDoc, part: int) -> Result<PartModel, Seq<char>> {
    let measures = doc.named(part, "measure"@);
    part_fold(doc, measures, measures.len())
}

fn element_apply(doc: &XmlDoc, p: &mut PartBuild, c: Cursor, e: usize, n: &Vec<char>) -> (r: Result<Cursor, Vec<char>>)
    requires
        doc.wf(),
        e < doc.len(),
        doc.is_element@[e as int],
        part_wf(old(p).model()),
        cursor_wf(c),
    ensures
        match element_step(*doc, old(p).model(), c, e as int, n@) {
            Ok(m) => r == Ok::<Cursor, Vec<char>>(m.1) && final(p).model() == m.0 && part_wf(m.0) && cursor_wf(m.1),
            Err(m) => r matches Err(v) && v@ == m,
        },
{
    let name = &doc.names[e];
    if crate::text::chars_eq(name, "attributes") {
        attributes_apply(doc, p, e, n)?;
        Ok(c)
    } else if crate::text::chars_eq(name, "backup") || crate::text::chars_eq(name, "forward") {
        move_apply(doc, p, c, e, n)
    } else if crate::text::chars_eq(name, "note") {
        note_apply(doc, p, c, e, n)
    } else if crate::text::chars_eq(name, "direction") || crate::text::chars_eq(name, "sound") {
        direction_apply(doc, p, c, e, n)?;
        Ok(c)
    } else {
        Ok(c)
    }
}

proof fn lemma_measure_fold_err(doc: XmlDoc, p: PartModel, elems: Seq<usize>, n: Seq<char>, k: nat, j: nat)
    requires
        k <= j <= elems.len(),
        measure_fold(doc, p, elems, n, k) is Err,
    ensures
        measure_fold(doc, p, elems, n, j) == measure_fold(doc, p, elems, n, k),
    decreases j - k,
{
    if k < j {
        lemma_measure_fold_err(doc, p, elems, n, k, (j - 1) as nat);
    }
}

fn measure_apply(doc: &XmlDoc, p: &mut PartBuild, m: usize) -> (r: Result<(), Vec<char>>)
    requires
        doc.wf(),
        m < doc.len(),
        part_wf(old(p).model()),
    ensures
        match measure_spec(*doc, old(p).model(), m as int) {
            Ok(x) => r is Ok && final(p).model() == x && part_wf(x),
            Err(x) => r matches Err(v) && v@ == x,
        },
{
    let n = match attribute(doc, m, "number") {
        Some(t) => t,
        None => crate::text::chars_of("?"),
    };
    let elems = crate::xml::element_children(doc, m);
    let ghost p0 = p.model();
    let zero = Rat::new(0, 1);
    let mut c = Cursor { at: zero, high: zero, chord: None };
    proof {
        crate::rat::lemma_gcd_zero_one();
        assert(c == barline());
    }
    let mut k: usize = 0;
    while k < elems.len()
        invariant
            doc.wf(),
            elems@ == doc.elements(m as int),
            n@ == measure_number(*doc, m as int),
            p0 == old(p).model(),
            forall|j: int| 0 <= j < elems@.len() ==> m < #[trigger] elems@[j] < doc.len(),
            k <= elems@.len(),
            measure_fold(*doc, p0, elems@, n@, k as nat) == Ok::<(PartModel, Cursor), Seq<char>>((p.model(), c)),
            part_wf(p.model()),
            cursor_wf(c),
        decreases elems.len() - k,
    {
        let e = elems[k];
        proof {
            lemma_elements_are_elements(*doc, m as int, 0);
            assert(doc.is_element@[e as int]);
        }
        match element_apply(doc, p, c, e, &n) {
            Ok(c2) => { c = c2; },
            Err(msg) => {
                proof {
                    lemma_measure_fold_err(*doc, p0, elems@, n@, (k + 1) as nat, elems@.len());
                }
                return Err(msg);
            },
        }
        k = k + 1;
    }
    let beats = p.time.beats_per_measure as i64;
    let unit = p.time.beat_unit as i64;
    let nominal = Rat::new(beats * 4, unit);
    let capacity = if crate::xml::attribute_is(doc, m, "implicit", "yes") { c.high } else { nominal };
    if capacity.lt(c.high) {
        let mut msg = cat3("measure ", &n, ": content is longer than the ");
        crate::text::push_chars(&mut msg, &decimal_text(beats));
        crate::text::push_str(&mut msg, "/");
        crate::text::push_chars(&mut msg, &decimal_text(unit));
        crate::text::push_str(&mut msg, " time signature allows");
        return Err(msg);
    }
    if capacity.num <= 0 {
        return Err(cat3("measure ", &n, ": empty implicit measure"));
    }
    proof {
        crate::rat::lemma_ops_wf(p.start, capacity);
    }
    match p.start.add(capacity) {
        None => Err(cat3("measure ", &n, ": time values overflow")),
        Some(s) => {
            p.start = s;
            p.capacities.push(capacity);
            Ok(())
        },
    }
}

proof fn lemma_elements_are_elements(doc: XmlDoc, i: int, k: int)
    requires
        0 <= k,
    ensures
        forall|j: int| 0 <= j < doc.elements_from(i, k).len() ==> doc.is_element@[#[trigger] doc.elements_from(i, k)[j] as int],
    decreases doc.children@[i]@.len() - k,
{
    if k < doc.children@[i]@.len() {
        lemma_elements_are_elements(doc, i, k + 1);
        let c = doc.children@[i]@[k];
        let rest = doc.elements_from(i, k + 1);
        if doc.is_element@[c as int] {
            assert forall|j: int| 0 <= j < doc.elements_from(i, k).len() implies doc.is_element@[#[trigger] doc.elements_from(i, k)[j] as int] by {
                if j > 0 {
                    assert(doc.elements_from(i, k)[j] == rest[j - 1]);
                }
            }
        }
    }
}

proof fn lemma_part_fold_err(doc: XmlDoc, measures: Seq<usize>, k: nat, j: nat)
    requires
        k <= j <= measures.len(),
        part_fold(doc, measures, k) is Err,
    ensures
        part_fold(doc, measures, j) == part_fold(doc, measures, k),
    decreases j - k,
{
    if k < j {
        lemma_part_fold_err(doc, measures, k, (j - 1) as nat);
    }
}

/// Reads one `<part>` (see [`part_spec`]).
pub fn convert_part(doc: &XmlDoc, part: usize) -> (r: Result<PartBuild, Vec<char>>)
    requires
        doc.wf(),
        part < doc.len(),
    ensures
        match part_spec(*doc, part as int) {
            Ok(x) => r matches Ok(b) && b.model() == x && part_wf(x),
            Err(x) => r matches Err(v) && v@ == x,
        },
{
    let measures = named_children(doc, part, "measure");
    let mut p = PartBuild {
        voices: Vec::new(),
        capacities: Vec::new(),
        tempo: Vec::new(),
        pedal: Vec::new(),
        pedal_measures: Vec::new(),
        divisions: 1,
        time: TimeSignature::common(),
        seen_time: false,
        start: Rat::new(0, 1),
        warnings: Vec::new(),
        grace: 0,
    };
    proof {
        crate::rat::lemma_gcd_zero_one();
        assert(p.model().voices =~= Seq::<VoiceModel>::empty());
        assert(p.model().pedal_measures =~= Seq::<Seq<char>>::empty());
        assert(p.model().warnings =~= Seq::<Seq<char>>::empty());
        assert(p.model() == initial_part());
    }
    let mut k: usize = 0;
    while k < measures.len()
        invariant
            doc.wf(),
            measures@ == doc.named(part as int, "measure"@),
            forall|j: int| 0 <= j < measures@.len() ==> part < #[trigger] measures@[j] < doc.len(),
            k <= measures@.len(),
            part_fold(*doc, measures@, k as nat) == Ok::<PartModel, Seq<char>>(p.model()),
            part_wf(p.model()),
        decreases measures.len() - k,
    {
        match measure_apply(doc, &mut p, measures[k]) {
            Ok(()) => {},
            Err(msg) => {
                proof {
                    lemma_part_fold_err(*doc, measures@, (k + 1) as nat, measures@.len());
                }
                return Err(msg);
            },
        }
        k = k + 1;
    }
    Ok(p)
}

} // verus!
