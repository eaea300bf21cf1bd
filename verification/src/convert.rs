//! The whole MusicXML document: parts, the shared rhythm grid, cells, pedal
//! lanes, the tempo map and piece metadata.

use vstd::prelude::*;
use crate::events::{LaneError, NoteEvent, assign_lanes, assign_lanes_spec, emit_lane, emit_lane_spec, merge_ties, merge_ties_spec};
use crate::marks::pedal_lane_spec;
use crate::score::{Score, Step, TempoPoint, TimeSignature};
use crate::musicxml::{PartBuild, PartModel, Voice, VoiceModel, part_wf, voices_model, convert_part, part_spec};
use crate::rat::Rat;
use crate::text::{cat3, cat5, decimal, decimal_text, parse_i32, parse_i32_spec, parse_u32, parse_u32_spec, trim, trimmed};
use crate::xml::{XmlDoc, attribute, named_children};

verus! {

// ---------------------------------------------------------------------------
// Parts

/// The `id` of a part, or "?".
pub open spec fn part_id(doc: XmlDoc, part: int) -> Seq<char> {
    match doc.attribute(part, "id"@) {
        Some(t) => t,
        None => "?"@,
    }
}

/// The first `k` parts, read in order; the first error stops the reading.
pub open spec fn parts_fold(doc: XmlDoc, parts: Seq<usize>, k: nat) -> Result<Seq<PartModel>, Seq<char>>
    decreases k,
{
    if k == 0 || k > parts.len() {
        Ok(Seq::empty())
    } else {
        match parts_fold(doc, parts, (k - 1) as nat) {
            Err(m) => Err(m),
            Ok(models) => match part_spec(doc, parts[k - 1] as int) {
                Err(m) => Err(m),
                Ok(p) => Ok(models.push(p)),
            },
        }
    }
}

/// The root must be a `<score-partwise>`; its `<part>` children are read.
pub open spec fn read_parts_spec(doc: XmlDoc) -> Result<Seq<PartModel>, Seq<char>> {
    let root = doc.root as int;
    if doc.is_tag(root, "score-timewise"@) {
        Err("score-timewise MusicXML is not supported; export partwise"@)
    } else if !doc.is_tag(root, "score-partwise"@) {
        Err("expected a <score-partwise> MusicXML document, found <"@ + doc.names@[root]@ + ">"@)
    } else {
        let parts = doc.named(root, "part"@);
        parts_fold(doc, parts, parts.len())
    }
}

pub open spec fn part_ids(doc: XmlDoc) -> Seq<Seq<char>> {
    let parts = doc.named(doc.root as int, "part"@);
    Seq::new(parts.len(), |i: int| part_id(doc, parts[i] as int))
}

pub open spec fn models_of(v: Seq<PartBuild>) -> Seq<PartModel> {
    Seq::new(v.len(), |i: int| v[i].model())
}

proof fn lemma_parts_fold_err(doc: XmlDoc, parts: Seq<usize>, k: nat, j: nat)
    requires
        k <= j <= parts.len(),
        parts_fold(doc, parts, k) is Err,
    ensures
        parts_fold(doc, parts, j) == parts_fold(doc, parts, k),
    decreases j - k,
{
    if k < j {
        lemma_parts_fold_err(doc, parts, k, (j - 1) as nat);
    }
}

/// Reads the parts of a document (see [`read_parts_spec`]), with their ids.
pub fn read_parts(doc: &XmlDoc) -> (r: Result<(Vec<PartBuild>, Vec<Vec<char>>), Vec<char>>)
    requires
        doc.wf(),
    ensures
        match read_parts_spec(*doc) {
            Ok(ms) => r matches Ok(x) && models_of(x.0@) == ms && crate::musicxml::texts(x.1@) == part_ids(*doc)
                && x.1@.len() == x.0@.len()
                && forall|i: int| 0 <= i < ms.len() ==> part_wf(#[trigger] ms[i]),
            Err(m) => r matches Err(v) && v@ == m,
        },
{
    let root = doc.root;
    let name = &doc.names[root];
    if doc.is_element[root] && crate::text::chars_eq(name, "score-timewise") {
        return Err(crate::text::chars_of("score-timewise MusicXML is not supported; export partwise"));
    }
    if !(doc.is_element[root] && crate::text::chars_eq(name, "score-partwise")) {
        return Err(cat3("expected a <score-partwise> MusicXML document, found <", name, ">"));
    }
    let parts = named_children(doc, root, "part");
    let mut out: Vec<PartBuild> = Vec::new();
    let mut ids: Vec<Vec<char>> = Vec::new();
    let mut k: usize = 0;
    proof {
        assert(models_of(out@) =~= Seq::<PartModel>::empty());
    }
    while k < parts.len()
        invariant
            doc.wf(),
            root == doc.root,
            !doc.is_tag(root as int, "score-timewise"@),
            doc.is_tag(root as int, "score-partwise"@),
            parts@ == doc.named(root as int, "part"@),
            forall|j: int| 0 <= j < parts@.len() ==> root < #[trigger] parts@[j] < doc.len(),
            k <= parts@.len(),
            out@.len() == k,
            parts_fold(*doc, parts@, k as nat) == Ok::<Seq<PartModel>, Seq<char>>(models_of(out@)),
            forall|i: int| 0 <= i < out@.len() ==> part_wf(#[trigger] out@[i].model()),
            ids@.len() == k,
            forall|i: int| 0 <= i < k ==> (#[trigger] ids@[i])@ == part_id(*doc, parts@[i] as int),
        decreases parts.len() - k,
    {
        let part = parts[k];
        match convert_part(doc, part) {
            Ok(p) => {
                let ghost before = out@;
                out.push(p);
                proof {
                    assert(models_of(out@) =~= models_of(before).push(out@[k as int].model()));
                }
            },
            Err(m) => {
                proof {
                    lemma_parts_fold_err(*doc, parts@, (k + 1) as nat, parts@.len());
                }
                return Err(m);
            },
        }
        let id = match attribute(doc, part, "id") {
            Some(t) => t,
            None => crate::text::chars_of("?"),
        };
        ids.push(id);
        k = k + 1;
    }
    proof {
        assert(crate::musicxml::texts(ids@) =~= part_ids(*doc));
        assert forall|i: int| 0 <= i < models_of(out@).len() implies part_wf(#[trigger] models_of(out@)[i]) by {
            assert(part_wf(out@[i].model()));
        }
    }
    Ok((out, ids))
}

// ---------------------------------------------------------------------------
// The shared grid

/// Position of the first part, after the first, whose measure lengths differ
/// from the first part's.
pub open spec fn first_mismatch(ms: Seq<PartModel>, k: int) -> Option<int>
    decreases ms.len() - k,
{
    if k < 1 || k >= ms.len() {
        None
    } else if ms[k].capacities != ms[0].capacities {
        Some(k)
    } else {
        first_mismatch(ms, k + 1)
    }
}

/// The parts agree on a non-empty list of measure lengths.
pub open spec fn check_parts_spec(ms: Seq<PartModel>, ids: Seq<Seq<char>>) -> Option<Seq<char>> {
    if ms.len() == 0 {
        Some("MusicXML document has no parts"@)
    } else if ms[0].capacities.len() == 0 {
        Some("MusicXML document has no measures"@)
    } else {
        match first_mismatch(ms, 1) {
            Some(j) => Some("parts '"@ + ids[0] + "' and '"@ + ids[j] + "' disagree on measure lengths"@),
            None => None,
        }
    }
}

fn same_rats(a: &Vec<Rat>, b: &Vec<Rat>) -> (r: bool)
    ensures
        r == (a@ == b@),
{
    if a.len() != b.len() {
        return false;
    }
    let mut i: usize = 0;
    while i < a.len()
        invariant
            a@.len() == b@.len(),
            i <= a@.len(),
            forall|k: int| 0 <= k < i ==> a@[k] == b@[k],
        decreases a.len() - i,
    {
        if a[i] != b[i] {
            return false;
        }
        i = i + 1;
    }
    proof {
        assert(a@ =~= b@);
    }
    true
}

/// Checks the parts (see [`check_parts_spec`]).
pub fn check_parts(parts: &Vec<PartBuild>, ids: &Vec<Vec<char>>) -> (r: Option<Vec<char>>)
    requires
        ids@.len() == parts@.len(),
    ensures
        match check_parts_spec(models_of(parts@), crate::musicxml::texts(ids@)) {
            Some(m) => r matches Some(v) && v@ == m,
            None => r is None,
        },
{
    let ghost ms = models_of(parts@);
    if parts.len() == 0 {
        return Some(crate::text::chars_of("MusicXML document has no parts"));
    }
    if parts[0].capacities.len() == 0 {
        return Some(crate::text::chars_of("MusicXML document has no measures"));
    }
    let mut k: usize = 1;
    while k < parts.len()
        invariant
            ms == models_of(parts@),
            1 <= k <= parts@.len(),
            parts@[0].capacities@.len() > 0,
            ids@.len() == parts@.len(),
            first_mismatch(ms, 1) == first_mismatch(ms, k as int),
        decreases parts.len() - k,
    {
        if !same_rats(&parts[k].capacities, &parts[0].capacities) {
            proof {
                assert(ms[k as int].capacities == parts@[k as int].capacities@);
                assert(models_of(parts@)[0].capacities == parts@[0].capacities@);
                assert(first_mismatch(ms, k as int) == Some(k as int));
                assert(crate::musicxml::texts(ids@)[0] == ids@[0]@);
                assert(crate::musicxml::texts(ids@)[k as int] == ids@[k as int]@);
            }
            return Some(cat5("parts '", &ids[0], "' and '", &ids[k], "' disagree on measure lengths"));
        }
        proof {
            assert(ms[k as int].capacities == parts@[k as int].capacities@);
            assert(models_of(parts@)[0].capacities == parts@[0].capacities@);
        }
        k = k + 1;
    }
    None
}

/// The times of a list of events: each onset, then its duration.
pub open spec fn event_values(es: Seq<NoteEvent>) -> Seq<Rat>
    decreases es.len(),
{
    if es.len() == 0 {
        Seq::empty()
    } else {
        event_values(es.drop_last()) + seq![es.last().onset, es.last().duration]
    }
}

/// The event times of every voice, in order.
pub open spec fn voices_values(vs: Seq<VoiceModel>) -> Seq<Rat>
    decreases vs.len(),
{
    if vs.len() == 0 {
        Seq::empty()
    } else {
        voices_values(vs.drop_last()) + event_values(vs.last().events)
    }
}

/// The event times of every part, in order.
pub open spec fn parts_values(ms: Seq<PartModel>) -> Seq<Rat>
    decreases ms.len(),
{
    if ms.len() == 0 {
        Seq::empty()
    } else {
        parts_values(ms.drop_last()) + voices_values(ms.last().voices)
    }
}

/// The pedal mark positions of every part, in order.
pub open spec fn pedal_values(ms: Seq<PartModel>) -> Seq<Rat>
    decreases ms.len(),
{
    if ms.len() == 0 {
        Seq::empty()
    } else {
        pedal_values(ms.drop_last()) + Seq::new(ms.last().pedal.len(), |i: int| ms.last().pedal[i].0)
    }
}

/// Every time the grid must divide: the first part's measure lengths, every
/// onset and duration, the first part's tempo mark positions and every pedal
/// mark position.
pub open spec fn grid_values(ms: Seq<PartModel>) -> Seq<Rat> {
    ms[0].capacities + parts_values(ms) + Seq::new(ms[0].tempo.len(), |i: int| ms[0].tempo[i].0)
        + pedal_values(ms)
}

/// The GCD of the non-zero values among the first `k`; `Some(None)` when all
/// are zero, `None` when a GCD overflows.
pub open spec fn grid_fold(values: Seq<Rat>, k: nat) -> Option<Option<Rat>>
    decreases k,
{
    if k == 0 || k > values.len() {
        Some(None)
    } else {
        match grid_fold(values, (k - 1) as nat) {
            None => None,
            Some(g) => {
                let v = values[k - 1];
                if v.num == 0 {
                    Some(g)
                } else {
                    match g {
                        None => Some(Some(v)),
                        Some(cur) => match cur.gcd_with(v) {
                            None => None,
                            Some(n) => Some(Some(n)),
                        },
                    }
                }
            },
        }
    }
}

proof fn lemma_grid_fold_none(values: Seq<Rat>, k: nat, j: nat)
    requires
        k <= j <= values.len(),
        grid_fold(values, k) is None,
    ensures
        grid_fold(values, j) is None,
    decreases j - k,
{
    if k < j {
        lemma_grid_fold_none(values, k, (j - 1) as nat);
    }
}

proof fn lemma_grid_fold_wf(values: Seq<Rat>, k: nat)
    requires
        k <= values.len(),
        forall|i: int| 0 <= i < values.len() ==> (#[trigger] values[i]).wf(),
    ensures
        grid_fold(values, k) matches Some(Some(g)) ==> g.wf(),
    decreases k,
{
    if k > 0 {
        lemma_grid_fold_wf(values, (k - 1) as nat);
        let v = values[k - 1];
        if let Some(Some(cur)) = grid_fold(values, (k - 1) as nat) {
            crate::rat::lemma_ops_wf(cur, v);
        }
    }
}

/// Folds the grid over `values` (see [`grid_fold`]).
pub fn fold_grid(values: &Vec<Rat>) -> (r: Option<Option<Rat>>)
    requires
        forall|i: int| 0 <= i < values@.len() ==> (#[trigger] values@[i]).wf(),
    ensures
        r == grid_fold(values@, values@.len()),
{
    let mut g: Option<Rat> = None;
    let mut k: usize = 0;
    while k < values.len()
        invariant
            forall|i: int| 0 <= i < values@.len() ==> (#[trigger] values@[i]).wf(),
            k <= values@.len(),
            grid_fold(values@, k as nat) == Some(g),
        decreases values.len() - k,
    {
        let v = values[k];
        proof {
            lemma_grid_fold_wf(values@, k as nat);
            assert(v.wf());
        }
        if v.num != 0 {
            match g {
                None => { g = Some(v); },
                Some(cur) => match cur.gcd(v) {
                    None => {
                        proof {
                            lemma_grid_fold_none(values@, (k + 1) as nat, values@.len());
                        }
                        return None;
                    },
                    Some(n) => { g = Some(n); },
                },
            }
        }
        k = k + 1;
    }
    Some(g)
}

} // verus!

verus! {

pub open spec fn all_wf(s: Seq<Rat>) -> bool {
    forall|i: int| 0 <= i < s.len() ==> (#[trigger] s[i]).wf()
}

fn push_event_values(out: &mut Vec<Rat>, es: &Vec<NoteEvent>)
    requires
        all_wf(old(out)@),
        crate::events::events_wf(es@),
    ensures
        final(out)@ == old(out)@ + event_values(es@),
        all_wf(final(out)@),
{
    let ghost start = out@;
    let mut k: usize = 0;
    proof {
        assert(es@.take(0) =~= Seq::<NoteEvent>::empty());
        assert(out@ =~= start + event_values(es@.take(0)));
    }
    while k < es.len()
        invariant
            k <= es@.len(),
            crate::events::events_wf(es@),
            out@ == start + event_values(es@.take(k as int)),
            all_wf(out@),
        decreases es.len() - k,
    {
        let e = es[k];
        proof {
            assert(es@.take(k + 1).drop_last() =~= es@.take(k as int));
            assert(e.wf());
        }
        out.push(e.onset);
        out.push(e.duration);
        proof {
            assert(out@ =~= start + event_values(es@.take(k + 1)));
        }
        k = k + 1;
    }
    proof {
        assert(es@.take(es@.len() as int) =~= es@);
    }
}

pub open spec fn voices_wf(vs: Seq<VoiceModel>) -> bool {
    forall|v: int, i: int| 0 <= v < vs.len() && 0 <= i < vs[v].events.len() ==> (#[trigger] vs[v].events[i]).wf()
}

fn push_voices_values(out: &mut Vec<Rat>, vs: &Vec<Voice>)
    requires
        all_wf(old(out)@),
        voices_wf(voices_model(vs@)),
    ensures
        final(out)@ == old(out)@ + voices_values(voices_model(vs@)),
        all_wf(final(out)@),
{
    let ghost start = out@;
    let ghost vm = voices_model(vs@);
    let mut k: usize = 0;
    proof {
        assert(vm.take(0) =~= Seq::<VoiceModel>::empty());
        assert(out@ =~= start + voices_values(vm.take(0)));
    }
    while k < vs.len()
        invariant
            k <= vs@.len(),
            vm == voices_model(vs@),
            voices_wf(vm),
            out@ == start + voices_values(vm.take(k as int)),
            all_wf(out@),
        decreases vs.len() - k,
    {
        proof {
            assert(vm.take(k + 1).drop_last() =~= vm.take(k as int));
            assert(vm[k as int].events == vs@[k as int].events@);
            assert forall|i: int| 0 <= i < vs@[k as int].events@.len() implies (#[trigger] vs@[k as int].events@[i]).wf() by {
                assert(vm[k as int].events[i] == vs@[k as int].events@[i]);
            }
        }
        push_event_values(out, &vs[k].events);
        proof {
            assert(out@ =~= start + voices_values(vm.take(k + 1)));
        }
        k = k + 1;
    }
    proof {
        assert(vm.take(vm.len() as int) =~= vm);
    }
}

/// Every time the grid must divide (see [`grid_values`]).
pub fn collect_grid_values(parts: &Vec<PartBuild>) -> (r: Vec<Rat>)
    requires
        parts@.len() > 0,
        forall|i: int| 0 <= i < parts@.len() ==> part_wf(#[trigger] parts@[i].model()),
    ensures
        r@ == grid_values(models_of(parts@)),
        all_wf(r@),
{
    let ghost ms = models_of(parts@);
    let mut out: Vec<Rat> = Vec::new();
    let first = &parts[0];
    proof {
        assert(part_wf(first.model()));
    }
    let mut i: usize = 0;
    while i < first.capacities.len()
        invariant
            i <= first.capacities@.len(),
            part_wf(first.model()),
            out@ == first.capacities@.take(i as int),
            all_wf(out@),
        decreases first.capacities.len() - i,
    {
        proof {
            assert(first.model().capacities[i as int] == first.capacities@[i as int]);
        }
        out.push(first.capacities[i]);
        i = i + 1;
        proof {
            assert(out@ =~= first.capacities@.take(i as int));
        }
    }
    proof {
        assert(first.capacities@.take(first.capacities@.len() as int) =~= first.capacities@);
    }
    let ghost base = out@;
    let mut k: usize = 0;
    proof {
        assert(ms.take(0) =~= Seq::<PartModel>::empty());
        assert(out@ =~= base + parts_values(ms.take(0)));
    }
    while k < parts.len()
        invariant
            k <= parts@.len(),
            ms == models_of(parts@),
            forall|i: int| 0 <= i < parts@.len() ==> part_wf(#[trigger] parts@[i].model()),
            out@ == base + parts_values(ms.take(k as int)),
            all_wf(out@),
        decreases parts.len() - k,
    {
        proof {
            assert(ms.take(k + 1).drop_last() =~= ms.take(k as int));
            assert(part_wf(parts@[k as int].model()));
            assert(parts@[k as int].model().voices == voices_model(parts@[k as int].voices@));
        }
        push_voices_values(&mut out, &parts[k].voices);
        proof {
            assert(out@ =~= base + parts_values(ms.take(k + 1)));
        }
        k = k + 1;
    }
    proof {
        assert(ms.take(ms.len() as int) =~= ms);
    }
    let ghost mid = out@;
    let mut t: usize = 0;
    while t < first.tempo.len()
        invariant
            t <= first.tempo@.len(),
            part_wf(first.model()),
            out@ == mid + Seq::new(t as nat, |i: int| first.tempo@[i].0),
            all_wf(out@),
        decreases first.tempo.len() - t,
    {
        proof {
            assert(first.model().tempo[t as int] == first.tempo@[t as int]);
        }
        out.push(first.tempo[t].0);
        t = t + 1;
        proof {
            assert(out@ =~= mid + Seq::new(t as nat, |i: int| first.tempo@[i].0));
        }
    }
    let ghost mid2 = out@;
    let mut k: usize = 0;
    proof {
        assert(out@ =~= mid2 + pedal_values(ms.take(0)));
    }
    while k < parts.len()
        invariant
            k <= parts@.len(),
            ms == models_of(parts@),
            forall|i: int| 0 <= i < parts@.len() ==> part_wf(#[trigger] parts@[i].model()),
            out@ == mid2 + pedal_values(ms.take(k as int)),
            all_wf(out@),
        decreases parts.len() - k,
    {
        let ped = &parts[k].pedal;
        proof {
            assert(ms.take(k + 1).drop_last() =~= ms.take(k as int));
            assert(part_wf(parts@[k as int].model()));
            assert(parts@[k as int].model().pedal == ped@);
        }
        let ghost before = out@;
        let mut j: usize = 0;
        while j < ped.len()
            invariant
                j <= ped@.len(),
                forall|i: int| 0 <= i < ped@.len() ==> (#[trigger] ped@[i]).0.wf(),
                out@ == before + Seq::new(j as nat, |i: int| ped@[i].0),
                all_wf(out@),
            decreases ped.len() - j,
        {
            out.push(ped[j].0);
            j = j + 1;
            proof {
                assert(out@ =~= before + Seq::new(j as nat, |i: int| ped@[i].0));
            }
        }
        proof {
            assert(ms[k as int].pedal == ped@);
            assert(out@ =~= mid2 + pedal_values(ms.take(k + 1)));
        }
        k = k + 1;
    }
    proof {
        assert(ms.take(ms.len() as int) =~= ms);
        assert(ms[0].capacities == first.capacities@);
        assert(ms[0].tempo == first.tempo@);
        assert(out@ =~= grid_values(ms));
    }
    out
}

/// The sum of the first `k` measure lengths; `None` on overflow.
pub open spec fn sum_fold(caps: Seq<Rat>, k: nat) -> Option<Rat>
    decreases k,
{
    if k == 0 || k > caps.len() {
        Some(Rat { num: 0, den: 1 })
    } else {
        match sum_fold(caps, (k - 1) as nat) {
            None => None,
            Some(s) => s.plus(caps[k - 1]),
        }
    }
}

/// The rhythm grid and the number of grid steps in the piece.
pub open spec fn timing_spec(ms: Seq<PartModel>) -> Result<(Rat, nat), Seq<char>> {
    let values = grid_values(ms);
    match grid_fold(values, values.len()) {
        None => Err("time values overflow"@),
        Some(None) => Err("MusicXML document has no notes"@),
        Some(Some(g)) => match sum_fold(ms[0].capacities, ms[0].capacities.len()) {
            None => Err("time values overflow"@),
            Some(total) => match crate::events::steps_of(total, g) {
                None => Err("internal: grid does not divide the piece length"@),
                Some(k) => if k > usize::MAX {
                    Err("the piece has too many grid steps"@)
                } else if 4 * g.den > i64::MAX {
                    Err("the rhythm grid is too fine to name"@)
                } else {
                    Ok((g, k as nat))
                },
            },
        },
    }
}

proof fn lemma_sum_wf(caps: Seq<Rat>, k: nat)
    requires
        k <= caps.len(),
        all_wf(caps),
    ensures
        sum_fold(caps, k) matches Some(s) ==> s.wf(),
    decreases k,
{
    if k > 0 {
        lemma_sum_wf(caps, (k - 1) as nat);
        if let Some(s) = sum_fold(caps, (k - 1) as nat) {
            crate::rat::lemma_ops_wf(s, caps[k - 1]);
        }
    } else {
        crate::rat::lemma_gcd_zero_one();
    }
}

proof fn lemma_sum_none(caps: Seq<Rat>, k: nat, j: nat)
    requires
        k <= j <= caps.len(),
        sum_fold(caps, k) is None,
    ensures
        sum_fold(caps, j) is None,
    decreases j - k,
{
    if k < j {
        lemma_sum_none(caps, k, (j - 1) as nat);
    }
}

/// Computes the grid and the step count (see [`timing_spec`]).
pub fn timing(parts: &Vec<PartBuild>) -> (r: Result<(Rat, usize), Vec<char>>)
    requires
        parts@.len() > 0,
        forall|i: int| 0 <= i < parts@.len() ==> part_wf(#[trigger] parts@[i].model()),
    ensures
        match timing_spec(models_of(parts@)) {
            Ok(t) => r matches Ok(x) && x.0 == t.0 && x.1 == t.1 && x.0.wf(),
            Err(m) => r matches Err(v) && v@ == m,
        },
{
    let values = collect_grid_values(parts);
    let g = match fold_grid(&values) {
        None => { return Err(crate::text::chars_of("time values overflow")); },
        Some(None) => { return Err(crate::text::chars_of("MusicXML document has no notes")); },
        Some(Some(g)) => g,
    };
    proof {
        lemma_grid_fold_wf(values@, values@.len());
    }
    let caps = &parts[0].capacities;
    proof {
        assert(part_wf(parts@[0].model()));
        assert(all_wf(caps@));
        assert(models_of(parts@)[0].capacities == caps@);
        crate::rat::lemma_gcd_zero_one();
    }
    let mut total = Rat::new(0, 1);
    let mut i: usize = 0;
    while i < caps.len()
        invariant
            i <= caps@.len(),
            all_wf(caps@),
            sum_fold(caps@, i as nat) == Some(total),
            total.wf(),
            parts@.len() > 0,
            values@ == grid_values(models_of(parts@)),
            grid_fold(values@, values@.len()) == Some(Some(g)),
            models_of(parts@)[0].capacities == caps@,
        decreases caps.len() - i,
    {
        proof {
            assert(caps@[i as int].wf());
            crate::rat::lemma_ops_wf(total, caps@[i as int]);
        }
        match total.add(caps[i]) {
            None => {
                proof {
                    lemma_sum_none(caps@, (i + 1) as nat, caps@.len());
                }
                return Err(crate::text::chars_of("time values overflow"));
            },
            Some(t) => { total = t; },
        }
        i = i + 1;
    }
    let steps = match total.div_exact(g) {
        None => { return Err(crate::text::chars_of("internal: grid does not divide the piece length")); },
        Some(k) => k,
    };
    proof {
        crate::rat::lemma_div_exact_meaning(total, g);
    }
    if steps as u64 > usize::MAX as u64 {
        return Err(crate::text::chars_of("the piece has too many grid steps"));
    }
    if g.den > i64::MAX / 4 {
        return Err(crate::text::chars_of("the rhythm grid is too fine to name"));
    }
    Ok((g, steps as usize))
}

} // verus!

verus! {

// ---------------------------------------------------------------------------
// Cells

/// `a + b`, capped at `usize::MAX`.
pub open spec fn sat_add(a: usize, b: usize) -> usize {
    if a + b > usize::MAX { usize::MAX } else { (a + b) as usize }
}

fn sat_add_exec(a: usize, b: usize) -> (r: usize)
    ensures
        r == sat_add(a, b),
{
    if a > usize::MAX - b { usize::MAX } else { a + b }
}

/// How a voice's cells are named in the report.
pub open spec fn cell_label(multi: bool, id: Seq<char>, label: Seq<char>) -> Seq<char> {
    if multi { "part "@ + id + " voice "@ + label } else { "voice "@ + label }
}

pub open spec fn tie_msg(m: i64) -> Seq<char> {
    "tie into pitch "@ + decimal(m as int) + " could not be matched to a preceding note; kept as a new onset"@
}

pub open spec fn lane_error_msg(label: Seq<char>, e: LaneError) -> Seq<char> {
    match e {
        LaneError::OnsetOffGrid => "internal: "@ + label + " onset off the rhythm grid"@,
        LaneError::DurationOffGrid => "internal: "@ + label + " duration off the rhythm grid"@,
        LaneError::ExceedsPiece => "internal: "@ + label + " event exceeds the piece length"@,
    }
}

/// The first `k` lanes rendered onto the grid.
pub open spec fn emit_lanes(lanes: Seq<Seq<NoteEvent>>, grid: Rat, total: nat, label: Seq<char>, k: nat) -> Result<Seq<Seq<Step>>, Seq<char>>
    decreases k,
{
    if k == 0 || k > lanes.len() {
        Ok(Seq::empty())
    } else {
        match emit_lanes(lanes, grid, total, label, (k - 1) as nat) {
            Err(m) => Err(m),
            Ok(cells) => match emit_lane_spec(lanes[k - 1], grid, total) {
                Err(e) => Err(lane_error_msg(label, e)),
                Ok(c) => Ok(cells.push(c)),
            },
        }
    }
}

/// Cells made so far: the cells, `(label, lanes)` per voice, ties merged, and
/// warnings.
pub struct CellsModel {
    pub cells: Seq<Seq<Step>>,
    pub lanes: Seq<(Seq<char>, nat)>,
    pub ties: usize,
    pub warnings: Seq<Seq<char>>,
}

/// One voice: ties merged, split into lanes, and each lane rendered.
pub open spec fn voice_cells(st: CellsModel, label: Seq<char>, events: Seq<NoteEvent>, grid: Rat, total: nat) -> Result<CellsModel, Seq<char>> {
    match merge_ties_spec(events) {
        None => Err("time values overflow"@),
        Some(mt) => match assign_lanes_spec(mt.0) {
            None => Err("time values overflow"@),
            Some(lanes) => match emit_lanes(lanes, grid, total, label, lanes.len()) {
                Err(m) => Err(m),
                Ok(cells) => Ok(CellsModel {
                    cells: st.cells + cells,
                    lanes: st.lanes.push((label, lanes.len())),
                    ties: sat_add(st.ties, mt.1 as usize),
                    warnings: st.warnings + Seq::new(mt.2.len(), |i: int| tie_msg(mt.2[i])),
                }),
            },
        },
    }
}

/// The first `k` voices of a part.
pub open spec fn part_cells(st: CellsModel, p: PartModel, id: Seq<char>, multi: bool, grid: Rat, total: nat, k: nat) -> Result<CellsModel, Seq<char>>
    decreases k,
{
    if k == 0 || k > p.voices.len() {
        Ok(st)
    } else {
        match part_cells(st, p, id, multi, grid, total, (k - 1) as nat) {
            Err(m) => Err(m),
            Ok(s2) => voice_cells(s2, cell_label(multi, id, p.voices[k - 1].label), p.voices[k - 1].events, grid, total),
        }
    }
}

pub open spec fn empty_cells() -> CellsModel {
    CellsModel { cells: Seq::empty(), lanes: Seq::empty(), ties: 0, warnings: Seq::empty() }
}

/// The voices of the first `k` parts.
pub open spec fn parts_cells(ms: Seq<PartModel>, ids: Seq<Seq<char>>, grid: Rat, total: nat, k: nat) -> Result<CellsModel, Seq<char>>
    decreases k,
{
    if k == 0 || k > ms.len() {
        Ok(empty_cells())
    } else {
        match parts_cells(ms, ids, grid, total, (k - 1) as nat) {
            Err(m) => Err(m),
            Ok(st) => part_cells(st, ms[k - 1], ids[k - 1], ms.len() > 1, grid, total, ms[k - 1].voices.len()),
        }
    }
}

/// Cells as they are built.
pub struct CellsBuild {
    pub cells: Vec<Vec<Step>>,
    pub lanes: Vec<(Vec<char>, usize)>,
    pub ties: usize,
    pub warnings: Vec<Vec<char>>,
}

impl CellsBuild {
    pub open spec fn model(&self) -> CellsModel {
        CellsModel {
            cells: crate::topology::rows_view(self.cells@),
            lanes: Seq::new(self.lanes@.len(), |i: int| (self.lanes@[i].0@, self.lanes@[i].1 as nat)),
            ties: self.ties,
            warnings: crate::musicxml::texts(self.warnings@),
        }
    }
}

fn lane_error_text(label: &Vec<char>, e: LaneError) -> (r: Vec<char>)
    ensures
        r@ == lane_error_msg(label@, e),
{
    match e {
        LaneError::OnsetOffGrid => cat3("internal: ", label, " onset off the rhythm grid"),
        LaneError::DurationOffGrid => cat3("internal: ", label, " duration off the rhythm grid"),
        LaneError::ExceedsPiece => cat3("internal: ", label, " event exceeds the piece length"),
    }
}

proof fn lemma_emit_lanes_err(lanes: Seq<Seq<NoteEvent>>, grid: Rat, total: nat, label: Seq<char>, k: nat, j: nat)
    requires
        k <= j <= lanes.len(),
        emit_lanes(lanes, grid, total, label, k) is Err,
    ensures
        emit_lanes(lanes, grid, total, label, j) == emit_lanes(lanes, grid, total, label, k),
    decreases j - k,
{
    if k < j {
        lemma_emit_lanes_err(lanes, grid, total, label, k, (j - 1) as nat);
    }
}

fn voice_cells_apply(st: &mut CellsBuild, label: &Vec<char>, events: &Vec<NoteEvent>, grid: Rat, total: usize) -> (r: Result<(), Vec<char>>)
    requires
        crate::events::events_wf(events@),
        grid.wf(),
    ensures
        match voice_cells(old(st).model(), label@, events@, grid, total as nat) {
            Ok(m) => r is Ok && final(st).model() == m,
            Err(m) => r matches Err(v) && v@ == m,
        },
{
    let (merged, ties, unmatched) = match merge_ties(events) {
        Some(x) => x,
        None => { return Err(crate::text::chars_of("time values overflow")); },
    };
    let lanes = match assign_lanes(&merged) {
        Some(l) => l,
        None => { return Err(crate::text::chars_of("time values overflow")); },
    };
    let ghost lv = crate::topology::rows_view(lanes@);
    let mut cells: Vec<Vec<Step>> = Vec::new();
    let mut k: usize = 0;
    proof {
        assert(crate::topology::rows_view(cells@) =~= Seq::<Seq<Step>>::empty());
    }
    while k < lanes.len()
        invariant
            k <= lanes@.len(),
            lv == crate::topology::rows_view(lanes@),
            grid.wf(),
            forall|l: int, i: int| 0 <= l < lanes@.len() && 0 <= i < lanes@[l]@.len()
                ==> (#[trigger] lanes@[l]@[i]).wf(),
            emit_lanes(lv, grid, total as nat, label@, k as nat) == Ok::<Seq<Seq<Step>>, Seq<char>>(crate::topology::rows_view(cells@)),
            merge_ties_spec(events@) == Some((merged@, ties as nat, unmatched@)),
            assign_lanes_spec(merged@) == Some(lv),
        decreases lanes.len() - k,
    {
        proof {
            assert(lv[k as int] == lanes@[k as int]@);
            assert forall|i: int| 0 <= i < lanes@[k as int]@.len() implies (#[trigger] lanes@[k as int]@[i]).wf() by {}
        }
        match emit_lane(&lanes[k], grid, total) {
            Ok(c) => {
                let ghost before = cells@;
                cells.push(c);
                proof {
                    assert(crate::topology::rows_view(cells@) =~= crate::topology::rows_view(before).push(c@));
                }
            },
            Err(e) => {
                proof {
                    lemma_emit_lanes_err(lv, grid, total as nat, label@, (k + 1) as nat, lv.len());
                }
                return Err(lane_error_text(label, e));
            },
        }
        k = k + 1;
    }
    let ghost m0 = st.model();
    let mut j: usize = 0;
    let ghost c0 = st.cells@;
    while j < cells.len()
        invariant
            j <= cells@.len(),
            crate::topology::rows_view(st.cells@) == crate::topology::rows_view(c0) + crate::topology::rows_view(cells@).take(j as int),
            st.lanes@ == old(st).lanes@,
            st.ties == old(st).ties,
            st.warnings@ == old(st).warnings@,
            m0 == old(st).model(),
            c0 == old(st).cells@,
        decreases cells.len() - j,
    {
        let ghost before = st.cells@;
        st.cells.push(crate::musicxml::copy_steps(&cells[j]));
        j = j + 1;
        proof {
            assert(crate::topology::rows_view(st.cells@) =~= crate::topology::rows_view(before).push(cells@[j - 1]@));
            assert(crate::topology::rows_view(cells@).take(j as int) =~= crate::topology::rows_view(cells@).take(j - 1).push(cells@[j - 1]@));
        }
    }
    let ghost lb = st.lanes@;
    st.lanes.push((crate::text::copy_chars(label), lanes.len()));
    st.ties = sat_add_exec(st.ties, ties);
    let ghost w0 = st.warnings@;
    let ghost c1 = st.cells@;
    let ghost l1 = st.lanes@;
    let ghost t1 = st.ties;
    let mut u: usize = 0;
    while u < unmatched.len()
        invariant
            u <= unmatched@.len(),
            crate::musicxml::texts(st.warnings@) == crate::musicxml::texts(w0) + Seq::new(u as nat, |i: int| tie_msg(unmatched@[i])),
            st.cells@ == c1,
            st.lanes@ == l1,
            st.ties == t1,
        decreases unmatched.len() - u,
    {
        let mut w = crate::text::cat2("tie into pitch ", &decimal_text(unmatched[u]));
        crate::text::push_str(&mut w, " could not be matched to a preceding note; kept as a new onset");
        let ghost before = st.warnings@;
        st.warnings.push(w);
        u = u + 1;
        proof {
            assert(crate::musicxml::texts(st.warnings@) =~= crate::musicxml::texts(before).push(w@));
            assert(crate::musicxml::texts(st.warnings@) =~= crate::musicxml::texts(w0) + Seq::new(u as nat, |i: int| tie_msg(unmatched@[i])));
        }
    }
    proof {
        assert(crate::topology::rows_view(cells@).take(cells@.len() as int) =~= crate::topology::rows_view(cells@));
        let m = st.model();
        assert(m.lanes =~= m0.lanes.push((label@, lanes@.len() as nat)));
        assert(m.cells =~= m0.cells + crate::topology::rows_view(cells@));
    }
    Ok(())
}

} // verus!

verus! {

proof fn lemma_part_cells_err(st: CellsModel, p: PartModel, id: Seq<char>, multi: bool, grid: Rat, total: nat, k: nat, j: nat)
    requires
        k <= j <= p.voices.len(),
        part_cells(st, p, id, multi, grid, total, k) is Err,
    ensures
        part_cells(st, p, id, multi, grid, total, j) == part_cells(st, p, id, multi, grid, total, k),
    decreases j - k,
{
    if k < j {
        lemma_part_cells_err(st, p, id, multi, grid, total, k, (j - 1) as nat);
    }
}

proof fn lemma_parts_cells_err(ms: Seq<PartModel>, ids: Seq<Seq<char>>, grid: Rat, total: nat, k: nat, j: nat)
    requires
        k <= j <= ms.len(),
        parts_cells(ms, ids, grid, total, k) is Err,
    ensures
        parts_cells(ms, ids, grid, total, j) == parts_cells(ms, ids, grid, total, k),
    decreases j - k,
{
    if k < j {
        lemma_parts_cells_err(ms, ids, grid, total, k, (j - 1) as nat);
    }
}

fn cell_label_text(multi: bool, id: &Vec<char>, label: &Vec<char>) -> (r: Vec<char>)
    ensures
        r@ == cell_label(multi, id@, label@),
{
    if multi {
        let mut r = cat3("part ", id, " voice ");
        crate::text::push_chars(&mut r, label);
        r
    } else {
        crate::text::cat2("voice ", label)
    }
}

/// Builds every voice's cells (see [`parts_cells`]).
pub fn build_cells(parts: &Vec<PartBuild>, ids: &Vec<Vec<char>>, grid: Rat, total: usize) -> (r: Result<CellsBuild, Vec<char>>)
    requires
        ids@.len() == parts@.len(),
        grid.wf(),
        forall|i: int| 0 <= i < parts@.len() ==> part_wf(#[trigger] parts@[i].model()),
    ensures
        match parts_cells(models_of(parts@), crate::musicxml::texts(ids@), grid, total as nat, parts@.len() as nat) {
            Ok(m) => r matches Ok(b) && b.model() == m,
            Err(m) => r matches Err(v) && v@ == m,
        },
{
    let ghost ms = models_of(parts@);
    let ghost idv = crate::musicxml::texts(ids@);
    let mut st = CellsBuild { cells: Vec::new(), lanes: Vec::new(), ties: 0, warnings: Vec::new() };
    proof {
        assert(st.model().cells =~= Seq::<Seq<Step>>::empty());
        assert(st.model().lanes =~= Seq::<(Seq<char>, nat)>::empty());
        assert(st.model().warnings =~= Seq::<Seq<char>>::empty());
        assert(st.model() == empty_cells());
    }
    let multi = parts.len() > 1;
    let mut k: usize = 0;
    while k < parts.len()
        invariant
            k <= parts@.len(),
            ms == models_of(parts@),
            idv == crate::musicxml::texts(ids@),
            ids@.len() == parts@.len(),
            multi == (parts@.len() > 1),
            grid.wf(),
            forall|i: int| 0 <= i < parts@.len() ==> part_wf(#[trigger] parts@[i].model()),
            parts_cells(ms, idv, grid, total as nat, k as nat) == Ok::<CellsModel, Seq<char>>(st.model()),
        decreases parts.len() - k,
    {
        let part = &parts[k];
        let ghost pm = ms[k as int];
        let ghost s0 = st.model();
        proof {
            assert(pm == part.model());
            assert(part_wf(pm));
            assert(idv[k as int] == ids@[k as int]@);
        }
        let mut v: usize = 0;
        while v < part.voices.len()
            invariant
                v <= part.voices@.len(),
                pm == part.model(),
                part_wf(pm),
                grid.wf(),
                multi == (parts@.len() > 1),
                k < parts@.len(),
                ids@.len() == parts@.len(),
                ms == models_of(parts@),
                idv == crate::musicxml::texts(ids@),
                pm == ms[k as int],
                *part == parts@[k as int],
                idv[k as int] == ids@[k as int]@,
                parts_cells(ms, idv, grid, total as nat, k as nat) == Ok::<CellsModel, Seq<char>>(s0),
                part_cells(s0, pm, ids@[k as int]@, multi, grid, total as nat, v as nat) == Ok::<CellsModel, Seq<char>>(st.model()),
            decreases part.voices.len() - v,
        {
            let voice = &part.voices[v];
            proof {
                assert(pm.voices[v as int] == voice.model());
                assert forall|i: int| 0 <= i < voice.events@.len() implies (#[trigger] voice.events@[i]).wf() by {
                    assert(pm.voices[v as int].events[i] == voice.events@[i]);
                }
            }
            let label = cell_label_text(multi, &ids[k], &voice.label);
            match voice_cells_apply(&mut st, &label, &voice.events, grid, total) {
                Ok(()) => {},
                Err(m) => {
                    proof {
                        lemma_part_cells_err(s0, pm, ids@[k as int]@, multi, grid, total as nat, (v + 1) as nat, pm.voices.len());
                        lemma_parts_cells_err(ms, idv, grid, total as nat, (k + 1) as nat, ms.len());
                    }
                    return Err(m);
                },
            }
            v = v + 1;
        }
        k = k + 1;
    }
    Ok(st)
}

// ---------------------------------------------------------------------------
// Pedal lanes

pub open spec fn stray_msg(measure: Seq<char>) -> Seq<char> {
    "pedal stop in measure "@ + measure + " has no pedal down; ignored"@
}

/// Pedal lanes so far, warnings, marks read and lanes made.
pub struct PedalModel {
    pub lanes: Seq<Seq<Step>>,
    pub warnings: Seq<Seq<char>>,
    pub events: usize,
    pub count: usize,
}

/// A part with pedal marks contributes one gate lane.
pub open spec fn part_pedal(st: PedalModel, p: PartModel, grid: Rat, total: nat) -> Result<PedalModel, Seq<char>> {
    if p.pedal.len() == 0 {
        Ok(st)
    } else {
        match pedal_lane_spec(p.pedal, grid, total) {
            None => Err("internal: pedal mark off the rhythm grid"@),
            Some(t) => Ok(PedalModel {
                lanes: st.lanes.push(t.0),
                warnings: st.warnings + Seq::new(t.1.len(), |i: int| stray_msg(p.pedal_measures[t.1[i] as int])),
                events: sat_add(st.events, p.pedal.len() as usize),
                count: sat_add(st.count, 1),
            }),
        }
    }
}

pub open spec fn parts_pedal(ms: Seq<PartModel>, grid: Rat, total: nat, k: nat) -> Result<PedalModel, Seq<char>>
    decreases k,
{
    if k == 0 || k > ms.len() {
        Ok(PedalModel { lanes: Seq::empty(), warnings: Seq::empty(), events: 0, count: 0 })
    } else {
        match parts_pedal(ms, grid, total, (k - 1) as nat) {
            Err(m) => Err(m),
            Ok(st) => part_pedal(st, ms[k - 1], grid, total),
        }
    }
}

proof fn lemma_parts_pedal_err(ms: Seq<PartModel>, grid: Rat, total: nat, k: nat, j: nat)
    requires
        k <= j <= ms.len(),
        parts_pedal(ms, grid, total, k) is Err,
    ensures
        parts_pedal(ms, grid, total, j) == parts_pedal(ms, grid, total, k),
    decreases j - k,
{
    if k < j {
        lemma_parts_pedal_err(ms, grid, total, k, (j - 1) as nat);
    }
}

/// Pedal lanes as they are built.
pub struct PedalBuild {
    pub lanes: Vec<Vec<Step>>,
    pub warnings: Vec<Vec<char>>,
    pub events: usize,
    pub count: usize,
}

impl PedalBuild {
    pub open spec fn model(&self) -> PedalModel {
        PedalModel {
            lanes: crate::topology::rows_view(self.lanes@),
            warnings: crate::musicxml::texts(self.warnings@),
            events: self.events,
            count: self.count,
        }
    }
}

/// Builds the pedal lanes (see [`parts_pedal`]).
pub fn build_pedal(parts: &Vec<PartBuild>, grid: Rat, total: usize) -> (r: Result<PedalBuild, Vec<char>>)
    requires
        grid.wf(),
        forall|i: int| 0 <= i < parts@.len() ==> part_wf(#[trigger] parts@[i].model()),
    ensures
        match parts_pedal(models_of(parts@), grid, total as nat, parts@.len() as nat) {
            Ok(m) => r matches Ok(b) && b.model() == m,
            Err(m) => r matches Err(v) && v@ == m,
        },
{
    let ghost ms = models_of(parts@);
    let mut st = PedalBuild { lanes: Vec::new(), warnings: Vec::new(), events: 0, count: 0 };
    proof {
        assert(st.model().lanes =~= Seq::<Seq<Step>>::empty());
        assert(st.model().warnings =~= Seq::<Seq<char>>::empty());
    }
    let mut k: usize = 0;
    while k < parts.len()
        invariant
            k <= parts@.len(),
            ms == models_of(parts@),
            grid.wf(),
            forall|i: int| 0 <= i < parts@.len() ==> part_wf(#[trigger] parts@[i].model()),
            parts_pedal(ms, grid, total as nat, k as nat) == Ok::<PedalModel, Seq<char>>(st.model()),
        decreases parts.len() - k,
    {
        let part = &parts[k];
        proof {
            assert(ms[k as int] == part.model());
            assert(part_wf(part.model()));
            assert(part.model().pedal == part.pedal@);
        }
        if part.pedal.len() > 0 {
            match crate::marks::pedal_lane(&part.pedal, grid, total) {
                None => {
                    proof {
                        lemma_parts_pedal_err(ms, grid, total as nat, (k + 1) as nat, ms.len());
                    }
                    return Err(crate::text::chars_of("internal: pedal mark off the rhythm grid"));
                },
                Some((lane, stray)) => {
                    let ghost s0 = st.model();
                    let ghost before = st.lanes@;
                    st.lanes.push(lane);
                    proof {
                        assert(crate::topology::rows_view(st.lanes@) =~= crate::topology::rows_view(before).push(lane@));
                    }
                    let ghost w0 = st.warnings@;
                    let mut j: usize = 0;
                    while j < stray.len()
                        invariant
                            j <= stray@.len(),
                            forall|i: int| 0 <= i < stray@.len() ==> (#[trigger] stray@[i]) < part.pedal@.len(),
                            part.pedal_measures@.len() == part.pedal@.len(),
                            crate::musicxml::texts(st.warnings@) == crate::musicxml::texts(w0)
                                + Seq::new(j as nat, |i: int| stray_msg(part.pedal_measures@[stray@[i] as int]@)),
                            st.lanes@.len() == before.len() + 1,
                            crate::topology::rows_view(st.lanes@) == crate::topology::rows_view(before).push(lane@),
                            st.events == s0.events,
                            st.count == s0.count,
                        decreases stray.len() - j,
                    {
                        let s = stray[j];
                        let w = cat3("pedal stop in measure ", &part.pedal_measures[s], " has no pedal down; ignored");
                        let ghost wb = st.warnings@;
                        st.warnings.push(w);
                        j = j + 1;
                        proof {
                            assert(crate::musicxml::texts(st.warnings@) =~= crate::musicxml::texts(wb).push(w@));
                            assert(crate::musicxml::texts(st.warnings@) =~= crate::musicxml::texts(w0)
                                + Seq::new(j as nat, |i: int| stray_msg(part.pedal_measures@[stray@[i] as int]@)));
                        }
                    }
                    st.events = sat_add_exec(st.events, part.pedal.len());
                    st.count = sat_add_exec(st.count, 1);
                    proof {
                        let pm = part.model();
                        assert(Seq::new(stray@.len(), |i: int| stray_msg(pm.pedal_measures[stray@[i] as int]))
                            =~= Seq::new(stray@.len(), |i: int| stray_msg(part.pedal_measures@[stray@[i] as int]@)));
                        assert(st.model().warnings =~= s0.warnings + Seq::new(stray@.len(), |i: int| stray_msg(pm.pedal_measures[stray@[i] as int])));
                    }
                },
            }
        }
        k = k + 1;
    }
    Ok(st)
}

} // verus!

verus! {

// ---------------------------------------------------------------------------
// Metadata

/// First `<credit>` of `credits`, from `k` on, whose `<credit-type>` is `kind`.
pub open spec fn first_credit(doc: XmlDoc, credits: Seq<usize>, kind: Seq<char>, k: int) -> Option<usize>
    decreases credits.len() - k,
{
    if k < 0 || k >= credits.len() {
        None
    } else if doc.child_text(credits[k] as int, "credit-type"@) == Some(kind) {
        Some(credits[k])
    } else {
        first_credit(doc, credits, kind, k + 1)
    }
}

/// The trimmed texts of `<credit-words>` elements joined by single spaces.
pub open spec fn credit_words(doc: XmlDoc, ws: Seq<usize>) -> Seq<char>
    decreases ws.len(),
{
    if ws.len() == 0 {
        Seq::empty()
    } else {
        let acc = credit_words(doc, ws.drop_last());
        match doc.text(ws.last() as int) {
            Some(t) => (if acc.len() > 0 { acc.push(' ') } else { acc }) + trim(t),
            None => acc,
        }
    }
}

/// The engraved credit text of the given kind, when it is not empty.
pub open spec fn credit_spec(doc: XmlDoc, kind: Seq<char>) -> Option<Seq<char>> {
    let root = doc.root as int;
    match first_credit(doc, doc.named(root, "credit"@), kind, 0) {
        None => None,
        Some(c) => {
            let w = credit_words(doc, doc.named(c as int, "credit-words"@));
            if w.len() > 0 { Some(w) } else { None }
        },
    }
}

pub open spec fn work_title(doc: XmlDoc) -> Option<Seq<char>> {
    match doc.child_named(doc.root as int, "work"@) {
        Some(w) => doc.child_text(w as int, "work-title"@),
        None => None,
    }
}

/// The title: the engraved title credit, else `<movement-title>`, else the
/// `<work-title>`.
pub open spec fn title_spec(doc: XmlDoc) -> Option<Seq<char>> {
    match credit_spec(doc, "title"@) {
        Some(t) => Some(t),
        None => match doc.child_named(doc.root as int, "movement-title"@) {
            Some(m) => match doc.text(m as int) {
                Some(t) => Some(trim(t)),
                None => work_title(doc),
            },
            None => work_title(doc),
        },
    }
}

/// First `<creator>` of `cs`, from `k` on, whose `type` is "composer".
pub open spec fn first_composer(doc: XmlDoc, cs: Seq<usize>, k: int) -> Option<usize>
    decreases cs.len() - k,
{
    if k < 0 || k >= cs.len() {
        None
    } else if doc.attribute(cs[k] as int, "type"@) == Some("composer"@) {
        Some(cs[k])
    } else {
        first_composer(doc, cs, k + 1)
    }
}

/// The composer: the engraved composer credit, else the composer `<creator>`
/// of `<identification>`.
pub open spec fn composer_spec(doc: XmlDoc) -> Option<Seq<char>> {
    match credit_spec(doc, "composer"@) {
        Some(t) => Some(t),
        None => match doc.child_named(doc.root as int, "identification"@) {
            Some(id) => match first_composer(doc, doc.named(id as int, "creator"@), 0) {
                Some(c) => match doc.text(c as int) {
                    Some(t) => Some(trim(t)),
                    None => None,
                },
                None => None,
            },
            None => None,
        },
    }
}

/// The first `<key>` of `nodes`, from `k` on, that names a key.
pub open spec fn key_search(doc: XmlDoc, nodes: Seq<usize>, k: int) -> Option<Seq<char>>
    decreases nodes.len() - k,
{
    if k < 0 || k >= nodes.len() {
        None
    } else {
        let n = nodes[k] as int;
        let here = if doc.is_tag(n, "key"@) {
            match doc.child_text(n, "fifths"@) {
                Some(t) => match parse_i32_spec(t) {
                    Some(f) => crate::names::key_name_spec(f, doc.child_text(n, "mode"@) == Some("minor"@)),
                    None => None,
                },
                None => None,
            }
        } else {
            None
        };
        match here {
            Some(name) => Some(name),
            None => key_search(doc, nodes, k + 1),
        }
    }
}

/// A `<time>` element's signature, when beats and beat type are positive.
pub open spec fn time_of(doc: XmlDoc, n: int) -> Option<TimeSignature> {
    match (doc.child_text(n, "beats"@), doc.child_text(n, "beat-type"@)) {
        (Some(b), Some(u)) => match (parse_u32_spec(b), parse_u32_spec(u)) {
            (Some(bv), Some(uv)) => if bv > 0 && uv > 0 {
                Some(TimeSignature { beats_per_measure: bv as u32, beat_unit: uv as u32 })
            } else {
                None
            },
            _ => None,
        },
        _ => None,
    }
}

/// The first valid `<time>` of `nodes`, from `k` on.
pub open spec fn time_search(doc: XmlDoc, nodes: Seq<usize>, k: int) -> Option<TimeSignature>
    decreases nodes.len() - k,
{
    if k < 0 || k >= nodes.len() {
        None
    } else {
        let n = nodes[k] as int;
        let here = if doc.is_tag(n, "time"@) { time_of(doc, n) } else { None };
        match here {
            Some(t) => Some(t),
            None => time_search(doc, nodes, k + 1),
        }
    }
}

/// A `<sound>` element's `tempo` attribute, when it reads as a decimal.
pub open spec fn sound_tempo(doc: XmlDoc, n: int) -> Option<Rat> {
    if doc.is_tag(n, "sound"@) {
        match doc.attribute(n, "tempo"@) {
            Some(t) => crate::text::decimal_rat(t),
            None => None,
        }
    } else {
        None
    }
}

/// The first `<sound>` tempo of `nodes`, from `k` on.
pub open spec fn tempo_search(doc: XmlDoc, nodes: Seq<usize>, k: int) -> Option<Rat>
    decreases nodes.len() - k,
{
    if k < 0 || k >= nodes.len() {
        None
    } else {
        match sound_tempo(doc, nodes[k] as int) {
            Some(t) => Some(t),
            None => tempo_search(doc, nodes, k + 1),
        }
    }
}

/// Title, composer, key name, initial time signature and first marked
/// tempo (quarter notes per minute) of a piece.
pub struct Metadata {
    pub title: Option<Vec<char>>,
    pub composer: Option<Vec<char>>,
    pub key: Option<Vec<char>>,
    pub time_signature: Option<TimeSignature>,
    pub tempo: Option<Rat>,
}

pub open spec fn opt_text(o: Option<Vec<char>>) -> Option<Seq<char>> {
    match o {
        Some(v) => Some(v@),
        None => None,
    }
}

fn credit(doc: &XmlDoc, kind: &str) -> (r: Option<Vec<char>>)
    requires
        doc.wf(),
    ensures
        opt_text(r) == credit_spec(*doc, kind@),
{
    let root = doc.root;
    let credits = named_children(doc, root, "credit");
    let mut k: usize = 0;
    while k < credits.len()
        invariant
            doc.wf(),
            root == doc.root,
            credits@ == doc.named(root as int, "credit"@),
            forall|j: int| 0 <= j < credits@.len() ==> root < #[trigger] credits@[j] < doc.len(),
            k <= credits@.len(),
            first_credit(*doc, credits@, kind@, 0) == first_credit(*doc, credits@, kind@, k as int),
        decreases credits.len() - k,
    {
        let c = credits[k];
        let matches = match crate::xml::child_text(doc, c, "credit-type") {
            Some(t) => crate::text::chars_eq(&t, kind),
            None => false,
        };
        if matches {
            let ws = named_children(doc, c, "credit-words");
            let mut words: Vec<char> = Vec::new();
            let mut j: usize = 0;
            proof {
                assert(ws@.take(0) =~= Seq::<usize>::empty());
            }
            while j < ws.len()
                invariant
                    doc.wf(),
                    forall|i: int| 0 <= i < ws@.len() ==> (#[trigger] ws@[i]) < doc.len(),
                    j <= ws@.len(),
                    words@ == credit_words(*doc, ws@.take(j as int)),
                decreases ws.len() - j,
            {
                proof {
                    assert(ws@.take(j + 1).drop_last() =~= ws@.take(j as int));
                }
                match crate::xml::text_of(doc, ws[j]) {
                    Some(t) => {
                        if words.len() > 0 {
                            words.push(' ');
                        }
                        let tt = trimmed(&t);
                        crate::text::push_chars(&mut words, &tt);
                    },
                    None => {},
                }
                j = j + 1;
            }
            proof {
                assert(ws@.take(ws@.len() as int) =~= ws@);
            }
            if words.len() > 0 {
                return Some(words);
            } else {
                return None;
            }
        }
        k = k + 1;
    }
    None
}

/// Reads the piece metadata (see [`title_spec`], [`composer_spec`],
/// [`key_search`], [`time_search`] and [`tempo_search`]).
pub fn extract_metadata(doc: &XmlDoc) -> (r: Metadata)
    requires
        doc.wf(),
    ensures
        opt_text(r.title) == title_spec(*doc),
        opt_text(r.composer) == composer_spec(*doc),
        opt_text(r.key) == key_search(*doc, doc.preorder(doc.root as int), 0),
        r.time_signature == time_search(*doc, doc.preorder(doc.root as int), 0),
        r.tempo == tempo_search(*doc, doc.preorder(doc.root as int), 0),
{
    let root = doc.root;
    let title = match credit(doc, "title") {
        Some(t) => Some(t),
        None => {
            let work = match crate::xml::child_named(doc, root, "work") {
                Some(w) => crate::xml::child_text(doc, w, "work-title"),
                None => None,
            };
            match crate::xml::child_named(doc, root, "movement-title") {
                Some(m) => match crate::xml::text_of(doc, m) {
                    Some(t) => Some(trimmed(&t)),
                    None => work,
                },
                None => work,
            }
        },
    };
    let composer = match credit(doc, "composer") {
        Some(t) => Some(t),
        None => match crate::xml::child_named(doc, root, "identification") {
            Some(id) => {
                let creators = named_children(doc, id, "creator");
                let mut k: usize = 0;
                let mut found: Option<usize> = None;
                while k < creators.len() && found.is_none()
                    invariant
                        doc.wf(),
                        forall|j: int| 0 <= j < creators@.len() ==> (#[trigger] creators@[j]) < doc.len(),
                        k <= creators@.len(),
                        found is None ==> first_composer(*doc, creators@, 0) == first_composer(*doc, creators@, k as int),
                        found matches Some(c) ==> first_composer(*doc, creators@, 0) == Some(c) && c < doc.len(),
                    decreases creators.len() - k,
                {
                    if crate::xml::attribute_is(doc, creators[k], "type", "composer") {
                        found = Some(creators[k]);
                    }
                    k = k + 1;
                }
                match found {
                    Some(c) => match crate::xml::text_of(doc, c) {
                        Some(t) => Some(trimmed(&t)),
                        None => None,
                    },
                    None => None,
                }
            },
            None => None,
        },
    };
    let mut nodes: Vec<usize> = Vec::new();
    crate::xml::collect_preorder(doc, root, &mut nodes);
    proof {
        assert(nodes@ =~= doc.preorder(root as int));
        assert forall|j: int| 0 <= j < nodes@.len() implies (#[trigger] nodes@[j]) < doc.len() by {
            assert(nodes@[0 + j] == nodes@[j]);
        }
    }
    let mut key: Option<Vec<char>> = None;
    let mut time: Option<TimeSignature> = None;
    let mut tempo: Option<Rat> = None;
    let mut k: usize = 0;
    while k < nodes.len()
        invariant
            doc.wf(),
            root == doc.root,
            nodes@ == doc.preorder(root as int),
            forall|j: int| 0 <= j < nodes@.len() ==> (#[trigger] nodes@[j]) < doc.len(),
            k <= nodes@.len(),
            key is None ==> key_search(*doc, nodes@, 0) == key_search(*doc, nodes@, k as int),
            key is Some ==> key_search(*doc, nodes@, 0) == opt_text(key),
            time is None ==> time_search(*doc, nodes@, 0) == time_search(*doc, nodes@, k as int),
            time is Some ==> time_search(*doc, nodes@, 0) == time,
            tempo is None ==> tempo_search(*doc, nodes@, 0) == tempo_search(*doc, nodes@, k as int),
            tempo is Some ==> tempo_search(*doc, nodes@, 0) == tempo,
        decreases nodes.len() - k,
    {
        let n = nodes[k];
        let is_elem = doc.is_element[n];
        if key.is_none() && is_elem && crate::text::chars_eq(&doc.names[n], "key") {
            match crate::xml::child_text(doc, n, "fifths") {
                Some(t) => match parse_i32(&t) {
                    Some(f) => {
                        let minor = match crate::xml::child_text(doc, n, "mode") {
                            Some(m) => crate::text::chars_eq(&m, "minor"),
                            None => false,
                        };
                        key = crate::names::key_name(f, minor);
                    },
                    None => {},
                },
                None => {},
            }
        }
        if time.is_none() && is_elem && crate::text::chars_eq(&doc.names[n], "time") {
            match (crate::xml::child_text(doc, n, "beats"), crate::xml::child_text(doc, n, "beat-type")) {
                (Some(b), Some(u)) => match (parse_u32(&b), parse_u32(&u)) {
                    (Some(bv), Some(uv)) => {
                        if bv > 0 && uv > 0 {
                            time = Some(TimeSignature { beats_per_measure: bv, beat_unit: uv });
                        }
                    },
                    _ => {},
                },
                _ => {},
            }
        }
        if tempo.is_none() && is_elem && crate::text::chars_eq(&doc.names[n], "sound") {
            match crate::xml::attribute(doc, n, "tempo") {
                Some(t) => {
                    tempo = crate::text::parse_decimal(&t);
                },
                None => {},
            }
        }
        k = k + 1;
    }
    Metadata { title, composer, key, time_signature: time, tempo }
}

} // verus!

verus! {

// ---------------------------------------------------------------------------
// The whole conversion

/// Non-fatal observations gathered during conversion.
pub struct ConvertReport {
    /// Measures converted (from the first part).
    pub measures: usize,
    /// Steps in every cell.
    pub steps_per_cell: usize,
    /// Name of the rhythm grid written to the score.
    pub rhythm_grid: String,
    /// Cells per voice in output order, as `(label, lanes)`.
    pub lanes: Vec<(String, usize)>,
    /// Tie stops merged into a preceding note.
    pub ties_merged: usize,
    /// Grace and cue notes skipped (they occupy no grid time).
    pub grace_notes_skipped: usize,
    /// Warnings to surface to the user.
    pub warnings: Vec<String>,
    /// Pedal marks read (start, stop and change).
    pub pedal_events: usize,
    /// Pedal gate lanes written to the score.
    pub pedal_lanes: usize,
}

/// A converted score as plain values.
pub struct ScoreModel {
    pub schema: Option<Seq<char>>,
    pub title: Option<Seq<char>>,
    pub composer: Option<Seq<char>>,
    pub key: Option<Seq<char>>,
    pub tempo: Option<Rat>,
    pub tempo_map: Seq<TempoPoint>,
    pub time_signature: Option<TimeSignature>,
    pub base_note_hint: Option<i64>,
    pub rhythm_grid: Seq<char>,
    pub cells: Seq<Seq<Step>>,
    pub pedal: Seq<Seq<Step>>,
}

/// A conversion report as plain values.
pub struct ReportModel {
    pub measures: nat,
    pub steps_per_cell: nat,
    pub rhythm_grid: Seq<char>,
    pub lanes: Seq<(Seq<char>, nat)>,
    pub ties_merged: usize,
    pub grace_notes_skipped: usize,
    pub warnings: Seq<Seq<char>>,
    pub pedal_events: usize,
    pub pedal_lanes: usize,
}

/// The warnings of the first `k` parts, in order.
pub open spec fn part_warnings(ms: Seq<PartModel>, k: nat) -> Seq<Seq<char>>
    decreases k,
{
    if k == 0 || k > ms.len() {
        Seq::empty()
    } else {
        part_warnings(ms, (k - 1) as nat) + ms[k - 1].warnings
    }
}

/// Grace notes skipped over the first `k` parts.
pub open spec fn grace_total(ms: Seq<PartModel>, k: nat) -> usize
    decreases k,
{
    if k == 0 || k > ms.len() {
        0
    } else {
        sat_add(grace_total(ms, (k - 1) as nat), ms[k - 1].grace)
    }
}

/// Converts a parsed `score-partwise` document: parts are read, checked to
/// agree on measure lengths, put on the shared grid, split into cells and
/// pedal lanes, and given a tempo map and metadata.
pub open spec fn convert_spec(doc: XmlDoc) -> Result<(ScoreModel, ReportModel), Seq<char>> {
    match read_parts_spec(doc) {
        Err(m) => Err(m),
        Ok(ms) => {
            let ids = part_ids(doc);
            match check_parts_spec(ms, ids) {
                Some(m) => Err(m),
                None => match timing_spec(ms) {
                    Err(m) => Err(m),
                    Ok(t) => {
                        let (g, total) = t;
                        match parts_cells(ms, ids, g, total, ms.len()) {
                            Err(m) => Err(m),
                            Ok(cells) => match parts_pedal(ms, g, total, ms.len()) {
                                Err(m) => Err(m),
                                Ok(ped) => match crate::marks::tempo_map_spec(ms[0].tempo, g) {
                                    None => Err("internal: tempo mark is not on the step grid"@),
                                    Some(tm) => {
                                        let nodes = doc.preorder(doc.root as int);
                                        let name = crate::names::grid_name_spec(g);
                                        Ok((
                                            ScoreModel {
                                                schema: Some(crate::score::SCORE_SCHEMA_V1@),
                                                title: title_spec(doc),
                                                composer: composer_spec(doc),
                                                key: key_search(doc, nodes, 0),
                                                tempo: tm.0,
                                                tempo_map: tm.1,
                                                time_signature: time_search(doc, nodes, 0),
                                                base_note_hint: Some(crate::events::BASE_NOTE),
                                                rhythm_grid: name,
                                                cells: cells.cells,
                                                pedal: ped.lanes,
                                            },
                                            ReportModel {
                                                measures: ms[0].capacities.len(),
                                                steps_per_cell: total,
                                                rhythm_grid: name,
                                                lanes: cells.lanes,
                                                ties_merged: cells.ties,
                                                grace_notes_skipped: grace_total(ms, ms.len()),
                                                warnings: part_warnings(ms, ms.len()) + cells.warnings + ped.warnings,
                                                pedal_events: ped.events,
                                                pedal_lanes: ped.count,
                                            },
                                        ))
                                    },
                                },
                            },
                        }
                    },
                },
            }
        },
    }
}

pub open spec fn opt_string(o: Option<String>) -> Option<Seq<char>> {
    match o {
        Some(s) => Some(s@),
        None => None,
    }
}

pub open spec fn strings(v: Seq<String>) -> Seq<Seq<char>> {
    Seq::new(v.len(), |i: int| v[i]@)
}

/// The score as plain values.
pub open spec fn score_model(s: Score) -> ScoreModel {
    ScoreModel {
        schema: opt_string(s.schema),
        title: opt_string(s.title),
        composer: opt_string(s.composer),
        key: opt_string(s.key),
        tempo: s.tempo,
        tempo_map: s.tempo_map@,
        time_signature: s.time_signature,
        base_note_hint: s.base_note_hint,
        rhythm_grid: match s.rhythm_grid { Some(g) => g@, None => Seq::empty() },
        cells: crate::topology::rows_view(s.cells@),
        pedal: crate::topology::rows_view(s.pedal@),
    }
}

/// The report as plain values.
pub open spec fn report_model(r: ConvertReport) -> ReportModel {
    ReportModel {
        measures: r.measures as nat,
        steps_per_cell: r.steps_per_cell as nat,
        rhythm_grid: r.rhythm_grid@,
        lanes: Seq::new(r.lanes@.len(), |i: int| (r.lanes@[i].0@, r.lanes@[i].1 as nat)),
        ties_merged: r.ties_merged,
        grace_notes_skipped: r.grace_notes_skipped,
        warnings: strings(r.warnings@),
        pedal_events: r.pedal_events,
        pedal_lanes: r.pedal_lanes,
    }
}

fn opt_string_of(o: Option<Vec<char>>) -> (r: Option<String>)
    ensures
        opt_string(r) == opt_text(o),
{
    match o {
        Some(v) => Some(crate::text::string_of(&v)),
        None => None,
    }
}

fn strings_of(v: &Vec<Vec<char>>) -> (r: Vec<String>)
    ensures
        strings(r@) == crate::musicxml::texts(v@),
{
    let mut r: Vec<String> = Vec::new();
    let mut i: usize = 0;
    while i < v.len()
        invariant
            i <= v@.len(),
            r@.len() == i,
            strings(r@) == crate::musicxml::texts(v@.take(i as int)),
        decreases v.len() - i,
    {
        let s = crate::text::string_of(&v[i]);
        let ghost before = r@;
        r.push(s);
        i = i + 1;
        proof {
            assert(strings(r@) =~= strings(before).push(v@[i - 1]@));
            assert(v@.take(i as int).drop_last() =~= v@.take(i - 1));
            assert(strings(r@) =~= crate::musicxml::texts(v@.take(i as int)));
        }
    }
    proof {
        assert(v@.take(v@.len() as int) =~= v@);
    }
    r
}

fn copy_rows(v: &Vec<Vec<Step>>) -> (r: Vec<Vec<Step>>)
    ensures
        crate::topology::rows_view(r@) == crate::topology::rows_view(v@),
{
    let mut r: Vec<Vec<Step>> = Vec::new();
    let mut i: usize = 0;
    while i < v.len()
        invariant
            i <= v@.len(),
            r@.len() == i,
            crate::topology::rows_view(r@) == crate::topology::rows_view(v@).take(i as int),
        decreases v.len() - i,
    {
        r.push(crate::musicxml::copy_steps(&v[i]));
        i = i + 1;
        proof {
            assert(crate::topology::rows_view(r@) =~= crate::topology::rows_view(v@).take(i as int));
        }
    }
    proof {
        assert(crate::topology::rows_view(v@).take(v@.len() as int) =~= crate::topology::rows_view(v@));
    }
    r
}

/// The warnings of every part, then those of the cells and of the pedal
/// lanes; and the grace notes skipped over all parts.
fn collect_warnings(parts: &Vec<PartBuild>, cell_warnings: &Vec<Vec<char>>, pedal_warnings: &Vec<Vec<char>>) -> (r: (Vec<Vec<char>>, usize))
    ensures
        crate::musicxml::texts(r.0@) == part_warnings(models_of(parts@), parts@.len() as nat)
            + crate::musicxml::texts(cell_warnings@) + crate::musicxml::texts(pedal_warnings@),
        r.1 == grace_total(models_of(parts@), parts@.len() as nat),
{
    let mut warnings: Vec<Vec<char>> = Vec::new();
    let mut grace: usize = 0;
    let mut k: usize = 0;
    let ghost ms = models_of(parts@);
    while k < parts.len()
        invariant
            k <= parts@.len(),
            ms == models_of(parts@),
            crate::musicxml::texts(warnings@) == part_warnings(ms, k as nat),
            grace == grace_total(ms, k as nat),
        decreases parts.len() - k,
    {
        let w = &parts[k].warnings;
        let ghost w0 = warnings@;
        let mut j: usize = 0;
        while j < w.len()
            invariant
                j <= w@.len(),
                warnings@.len() == w0.len() + j,
                crate::musicxml::texts(warnings@) == crate::musicxml::texts(w0) + crate::musicxml::texts(w@).take(j as int),
            decreases w.len() - j,
        {
            let ghost wb = warnings@;
            warnings.push(crate::text::copy_chars(&w[j]));
            j = j + 1;
            proof {
                assert(crate::musicxml::texts(warnings@) =~= crate::musicxml::texts(wb).push(w@[j - 1]@));
                assert(crate::musicxml::texts(w@).take(j as int) =~= crate::musicxml::texts(w@).take(j - 1).push(w@[j - 1]@));
                assert(crate::musicxml::texts(warnings@) =~= crate::musicxml::texts(w0) + crate::musicxml::texts(w@).take(j as int));
            }
        }
        proof {
            assert(crate::musicxml::texts(w@).take(w@.len() as int) =~= crate::musicxml::texts(w@));
            assert(ms[k as int].warnings == crate::musicxml::texts(w@));
            assert(ms[k as int].grace == parts@[k as int].grace);
        }
        grace = sat_add_exec(grace, parts[k].grace);
        k = k + 1;
    }
    let ghost pw = warnings@;
    let mut j: usize = 0;
    while j < cell_warnings.len()
        invariant
            j <= cell_warnings@.len(),
            warnings@.len() == pw.len() + j,
            crate::musicxml::texts(warnings@) == crate::musicxml::texts(pw) + crate::musicxml::texts(cell_warnings@).take(j as int),
        decreases cell_warnings.len() - j,
    {
        let ghost wb = warnings@;
        warnings.push(crate::text::copy_chars(&cell_warnings[j]));
        j = j + 1;
        proof {
            assert(crate::musicxml::texts(warnings@) =~= crate::musicxml::texts(wb).push(cell_warnings@[j - 1]@));
            assert(crate::musicxml::texts(cell_warnings@).take(j as int) =~= crate::musicxml::texts(cell_warnings@).take(j - 1).push(cell_warnings@[j - 1]@));
            assert(crate::musicxml::texts(warnings@) =~= crate::musicxml::texts(pw) + crate::musicxml::texts(cell_warnings@).take(j as int));
        }
    }
    let ghost cw = warnings@;
    let mut j: usize = 0;
    while j < pedal_warnings.len()
        invariant
            j <= pedal_warnings@.len(),
            warnings@.len() == cw.len() + j,
            crate::musicxml::texts(warnings@) == crate::musicxml::texts(cw) + crate::musicxml::texts(pedal_warnings@).take(j as int),
        decreases pedal_warnings.len() - j,
    {
        let ghost wb = warnings@;
        warnings.push(crate::text::copy_chars(&pedal_warnings[j]));
        j = j + 1;
        proof {
            assert(crate::musicxml::texts(warnings@) =~= crate::musicxml::texts(wb).push(pedal_warnings@[j - 1]@));
            assert(crate::musicxml::texts(pedal_warnings@).take(j as int) =~= crate::musicxml::texts(pedal_warnings@).take(j - 1).push(pedal_warnings@[j - 1]@));
            assert(crate::musicxml::texts(warnings@) =~= crate::musicxml::texts(cw) + crate::musicxml::texts(pedal_warnings@).take(j as int));
        }
    }
    proof {
        assert(crate::musicxml::texts(cell_warnings@).take(cell_warnings@.len() as int) =~= crate::musicxml::texts(cell_warnings@));
        assert(crate::musicxml::texts(pedal_warnings@).take(pedal_warnings@.len() as int) =~= crate::musicxml::texts(pedal_warnings@));
    }
    (warnings, grace)
}

/// Converts a parsed MusicXML document into a score and a report (see
/// [`convert_spec`]); the error is the first problem found.
pub fn convert_document(doc: &XmlDoc) -> (r: Result<(Score, ConvertReport), String>)
    requires
        doc.wf(),
    ensures
        document_converted(*doc, r),
{
    let (parts, ids) = match read_parts(doc) {
        Ok(x) => x,
        Err(m) => { return Err(crate::text::string_of(&m)); },
    };
    proof {
        assert forall|i: int| 0 <= i < parts@.len() implies part_wf(#[trigger] parts@[i].model()) by {
            assert(models_of(parts@)[i] == parts@[i].model());
        }
    }
    match check_parts(&parts, &ids) {
        Some(m) => { return Err(crate::text::string_of(&m)); },
        None => {},
    }
    let (grid, total) = match timing(&parts) {
        Ok(t) => t,
        Err(m) => { return Err(crate::text::string_of(&m)); },
    };
    let cells = match build_cells(&parts, &ids, grid, total) {
        Ok(c) => c,
        Err(m) => { return Err(crate::text::string_of(&m)); },
    };
    let ped = match build_pedal(&parts, grid, total) {
        Ok(p) => p,
        Err(m) => { return Err(crate::text::string_of(&m)); },
    };
    proof {
        assert(part_wf(parts@[0].model()));
        assert(models_of(parts@)[0].tempo == parts@[0].tempo@);
    }
    let (tempo, tempo_map) = match crate::marks::build_tempo_map(&parts[0].tempo, grid) {
        Some(t) => t,
        None => { return Err(crate::text::string_of(&crate::text::chars_of("internal: tempo mark is not on the step grid"))); },
    };
    let meta = extract_metadata(doc);
    let name = crate::names::grid_name(grid);
    let (warnings, grace) = collect_warnings(&parts, &cells.warnings, &ped.warnings);
    let mut lanes: Vec<(String, usize)> = Vec::new();
    let mut j: usize = 0;
    while j < cells.lanes.len()
        invariant
            j <= cells.lanes@.len(),
            lanes@.len() == j,
            forall|i: int| 0 <= i < j ==> (#[trigger] lanes@[i]).0@ == cells.lanes@[i].0@ && lanes@[i].1 == cells.lanes@[i].1,
        decreases cells.lanes.len() - j,
    {
        lanes.push((crate::text::string_of(&cells.lanes[j].0), cells.lanes[j].1));
        j = j + 1;
    }
    let measures = parts[0].capacities.len();
    let report = ConvertReport {
        measures,
        steps_per_cell: total,
        rhythm_grid: crate::text::string_of(&name),
        lanes,
        ties_merged: cells.ties,
        grace_notes_skipped: grace,
        warnings: strings_of(&warnings),
        pedal_events: ped.events,
        pedal_lanes: ped.count,
    };
    let score = Score {
        schema: Some(crate::text::string_of(&crate::text::chars_of(crate::score::SCORE_SCHEMA_V1))),
        title: opt_string_of(meta.title),
        composer: opt_string_of(meta.composer),
        key: opt_string_of(meta.key),
        tempo,
        tempo_map,
        time_signature: meta.time_signature,
        base_note_hint: Some(crate::events::BASE_NOTE),
        rhythm_grid: Some(crate::text::string_of(&name)),
        cells: copy_rows(&cells.cells),
        pedal: copy_rows(&ped.lanes),
    };
    proof {
        let rm = report_model(report);
        assert(rm.lanes =~= cells.model().lanes);
        assert(models_of(parts@)[0].capacities == parts@[0].capacities@);
    }
    Ok((score, report))
}

} // verus!

verus! {

/// Every row has `t` steps.
pub open spec fn rows_len(rows: Seq<Seq<Step>>, t: nat) -> bool {
    forall|i: int| 0 <= i < rows.len() ==> (#[trigger] rows[i]).len() == t
}

proof fn lemma_emit_from_len(events: Seq<NoteEvent>, grid: Rat, total: nat, k: int, steps: Seq<Step>)
    ensures
        crate::events::emit_from(events, grid, total, k, steps) matches Ok(s) ==> s.len() == steps.len(),
    decreases events.len() - k,
{
    if 0 <= k < events.len() {
        let e = events[k];
        match crate::events::steps_of(e.onset, grid) {
            None => {},
            Some(start) => match crate::events::steps_of(e.duration, grid) {
                None => {},
                Some(len) => {
                    if !(len == 0 || start + len > total) {
                        lemma_emit_from_len(events, grid, total, k + 1,
                            crate::events::paint(steps, start, len, (e.midi - crate::events::BASE_NOTE) as i8));
                    }
                },
            },
        }
    }
}

proof fn lemma_emit_lanes_len(lanes: Seq<Seq<NoteEvent>>, grid: Rat, total: nat, label: Seq<char>, k: nat)
    ensures
        emit_lanes(lanes, grid, total, label, k) matches Ok(cells) ==> rows_len(cells, total),
    decreases k,
{
    if k > 0 && k <= lanes.len() {
        lemma_emit_lanes_len(lanes, grid, total, label, (k - 1) as nat);
        lemma_emit_from_len(lanes[k - 1], grid, total, 0, Seq::new(total, |i: int| Step { note: None, held: false }));
    }
}

proof fn lemma_part_cells_len(st: CellsModel, p: PartModel, id: Seq<char>, multi: bool, grid: Rat, total: nat, k: nat)
    requires
        rows_len(st.cells, total),
    ensures
        part_cells(st, p, id, multi, grid, total, k) matches Ok(s) ==> rows_len(s.cells, total),
    decreases k,
{
    if k > 0 && k <= p.voices.len() {
        lemma_part_cells_len(st, p, id, multi, grid, total, (k - 1) as nat);
        match part_cells(st, p, id, multi, grid, total, (k - 1) as nat) {
            Err(_) => {},
            Ok(s2) => {
                let events = p.voices[k - 1].events;
                match merge_ties_spec(events) {
                    None => {},
                    Some(mt) => match assign_lanes_spec(mt.0) {
                        None => {},
                        Some(lanes) => {
                            let label = cell_label(multi, id, p.voices[k - 1].label);
                            lemma_emit_lanes_len(lanes, grid, total, label, lanes.len());
                            match emit_lanes(lanes, grid, total, label, lanes.len()) {
                                Err(_) => {},
                                Ok(cells) => {
                                    let all = s2.cells + cells;
                                    assert forall|i: int| 0 <= i < all.len() implies (#[trigger] all[i]).len() == total by {
                                        if i < s2.cells.len() {
                                            assert(all[i] == s2.cells[i]);
                                        } else {
                                            assert(all[i] == cells[i - s2.cells.len()]);
                                        }
                                    }
                                },
                            }
                        },
                    },
                }
            },
        }
    }
}

proof fn lemma_parts_cells_len(ms: Seq<PartModel>, ids: Seq<Seq<char>>, grid: Rat, total: nat, k: nat)
    ensures
        parts_cells(ms, ids, grid, total, k) matches Ok(s) ==> rows_len(s.cells, total),
    decreases k,
{
    if k > 0 && k <= ms.len() {
        lemma_parts_cells_len(ms, ids, grid, total, (k - 1) as nat);
        match parts_cells(ms, ids, grid, total, (k - 1) as nat) {
            Err(_) => {},
            Ok(st) => {
                lemma_part_cells_len(st, ms[k - 1], ids[k - 1], ms.len() > 1, grid, total, ms[k - 1].voices.len());
            },
        }
    }
}

/// Every cell of a converted score has the report's number of steps per
/// cell: voices silent in a measure are padded with rests.
pub proof fn lemma_cells_share_the_grid_length(doc: XmlDoc)
    ensures
        convert_spec(doc) matches Ok(m) ==> rows_len(m.0.cells, m.1.steps_per_cell),
{
    match read_parts_spec(doc) {
        Err(_) => {},
        Ok(ms) => {
            let ids = part_ids(doc);
            match timing_spec(ms) {
                Err(_) => {},
                Ok(t) => {
                    lemma_parts_cells_len(ms, ids, t.0, t.1, ms.len());
                },
            }
        },
    }
}

/// What converting a parsed document gives: the score and report that
/// [`convert_spec`] describes, or its error.
pub open spec fn document_converted(doc: XmlDoc, r: Result<(Score, ConvertReport), String>) -> bool {
    match convert_spec(doc) {
        Ok(m) => r matches Ok(x) && score_model(x.0) == m.0 && report_model(x.1) == m.1,
        Err(m) => r matches Err(v) && v@ == m,
    }
}

/// What converting MusicXML text gives: the parse failure, prefixed with
/// "invalid MusicXML: ", or the conversion of the document arena that the
/// text parses to (DTDs allowed).
pub open spec fn converted(xml: Seq<char>, r: Result<(Score, ConvertReport), String>) -> bool {
    match crate::xml::xml_parsed(xml, true) {
        Err(e) => r matches Err(m) && m@ == "invalid MusicXML: "@ + e,
        Ok(ns) => match crate::xml::arena_error(ns) {
            Some(e) => r matches Err(m) && m@ == "invalid MusicXML: "@ + e,
            None => exists|doc: XmlDoc| #[trigger] crate::xml::arena_of(ns, doc) && document_converted(doc, r),
        },
    }
}

/// Converts MusicXML text into a score and a conversion report.
///
/// The text is parsed by `roxmltree` (DTDs allowed); a parse failure is
/// reported as "invalid MusicXML: " followed by the parser's message.
/// Otherwise the result is [`convert_document`] on the parsed document.
pub fn convert_musicxml(xml: &str) -> (r: Result<(Score, ConvertReport), String>)
    ensures
        converted(xml@, r),
{
    let parsed = crate::xml::parse_xml(xml);
    let doc = match parsed {
        Ok(d) => d,
        Err(e) => {
            let t = crate::text::chars_of(e.as_str());
            let m = crate::text::cat2("invalid MusicXML: ", &t);
            let s = crate::text::string_of(&m);
            return Err(s);
        },
    };
    let r = convert_document(&doc);
    proof {
        match crate::xml::xml_parsed(xml@, true) {
            Ok(ns) => {
                assert(crate::xml::arena_of(ns, doc));
            },
            Err(_) => {},
        }
    }
    r
}

} // verus!
