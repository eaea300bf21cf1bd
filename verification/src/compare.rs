//! Note-level comparison of two `fugue.score.v1` documents: a candidate
//! transcription is scored against a reference. Both are flattened to
//! absolute-pitch note events on an exact time base, so different cell and
//! lane decompositions and different rhythm grids compare equal; only what
//! sounds when matters.
//!
//! Matching is exact on `(onset, pitch)`; among matched notes durations are
//! compared separately, preferring a duration-exact pairing. Unmatched notes
//! are classified as octave errors or near-miss timing. The ratios built on
//! these counts (precision, recall, F1, duration accuracy) are floating
//! point and are computed by the caller from [`CompareCounts`].

use vstd::prelude::*;
use crate::names::{note_value_from_name, note_value_spec};
use crate::rat::{Rat, abs, reduce};
use crate::score::{Score, Step, TimeSignature};
use crate::text::{chars_of, decimal, decimal_text, push_chars, push_str, string_of};

verus! {

/// Default base note when a score omits `base_note_hint` (middle C).
pub const DEFAULT_BASE_NOTE: i64 = 60;

/// Longest cell the comparison takes: its step positions times a grid's
/// numerator must fit the arithmetic.
pub const MAX_CELL_STEPS: u64 = 0x0100_0000_0000_0000;

/// A note on the exact time base: onset and duration in quarter notes, and
/// its absolute pitch.
#[derive(Clone, Copy, Debug, PartialEq, Eq, Structural)]
pub struct ScoreNote {
    pub onset: Rat,
    pub duration: Rat,
    pub pitch: i64,
}

// ---------------------------------------------------------------------------
// Flattening

/// The note sounding from step `start` to step `end` at `pitch`.
pub open spec fn note_at(start: int, end: int, pitch: int, grid: Rat) -> ScoreNote {
    ScoreNote {
        onset: Rat::from_pair(reduce(start * grid.num, grid.den as int)),
        duration: Rat::from_pair(reduce((end - start) * grid.num, grid.den as int)),
        pitch: pitch as i64,
    }
}

/// After the first `i` steps of a cell: the note still sounding (its start
/// and pitch), where it ends so far, and the notes completed.
pub open spec fn cell_fold(steps: Seq<Step>, base: int, grid: Rat, i: int) -> (Option<(int, int)>, int, Seq<ScoreNote>)
    decreases i,
{
    if i <= 0 || i > steps.len() {
        (None, 0, Seq::empty())
    } else {
        let (cur, end, ev) = cell_fold(steps, base, grid, i - 1);
        let step = steps[i - 1];
        if step.held && cur is Some {
            (cur, i, ev)
        } else {
            let ev2 = match cur {
                Some((s, p)) => ev.push(note_at(s, end, p, grid)),
                None => ev,
            };
            match step.note {
                Some(o) => (Some((i - 1, base + o)), i, ev2),
                None => (None, end, ev2),
            }
        }
    }
}

/// The notes of one cell: a held step extends the sounding note, a note
/// step starts a new one, a rest ends it.
pub open spec fn cell_notes(steps: Seq<Step>, base: int, grid: Rat) -> Seq<ScoreNote> {
    let (cur, end, ev) = cell_fold(steps, base, grid, steps.len() as int);
    match cur {
        Some((s, p)) => ev.push(note_at(s, end, p, grid)),
        None => ev,
    }
}

/// The notes of the first `k` cells, cell after cell.
pub open spec fn flatten_spec(cells: Seq<Seq<Step>>, base: int, grid: Rat, k: int) -> Seq<ScoreNote>
    decreases k,
{
    if k <= 0 || k > cells.len() {
        Seq::empty()
    } else {
        flatten_spec(cells, base, grid, k - 1) + cell_notes(cells[k - 1], base, grid)
    }
}

pub open spec fn cells_view(s: Score) -> Seq<Seq<Step>> {
    Seq::new(s.cells@.len(), |i: int| s.cells@[i]@)
}

pub open spec fn base_of(s: Score) -> int {
    match s.base_note_hint {
        Some(b) => b as int,
        None => DEFAULT_BASE_NOTE as int,
    }
}

/// Scores the comparison can take: cells no longer than
/// [`MAX_CELL_STEPS`], a base note well inside `i64`, and a time signature
/// with a positive beat unit.
pub open spec fn comparable(s: Score) -> bool {
    &&& forall|c: int| 0 <= c < s.cells@.len() ==> (#[trigger] s.cells@[c])@.len() <= MAX_CELL_STEPS
    &&& s.base_note_hint matches Some(b) ==> -0x1000_0000_0000_0000 <= b <= 0x1000_0000_0000_0000
    &&& s.time_signature matches Some(t) ==> t.beat_unit > 0
}

/// A grid within the bounds of every named grid (and of the default).
pub open spec fn grid_ok(g: Rat) -> bool {
    g.wf() && 1 <= g.num <= 4 && 1 <= g.den <= 128
}

/// A note within the bounds flattening keeps to.
pub open spec fn note_ok(n: ScoreNote) -> bool {
    &&& n.onset.wf() && n.duration.wf()
    &&& -0x0400_0000_0000_0000 <= n.onset.num <= 0x0400_0000_0000_0000
    &&& -0x0400_0000_0000_0000 <= n.duration.num <= 0x0400_0000_0000_0000
    &&& 1 <= n.onset.den <= 128 && 1 <= n.duration.den <= 128
    &&& -0x2000_0000_0000_0000 <= n.pitch <= 0x2000_0000_0000_0000
}

fn event_at(start: usize, end: usize, pitch: i64, grid: Rat) -> (r: ScoreNote)
    requires
        start <= end <= MAX_CELL_STEPS,
        grid_ok(grid),
        -0x2000_0000_0000_0000 <= pitch <= 0x2000_0000_0000_0000,
    ensures
        r == note_at(start as int, end as int, pitch as int, grid),
        note_ok(r),
{
    proof {
        assert(start * grid.num <= 0x0400_0000_0000_0000) by (nonlinear_arith)
            requires start <= 0x0100_0000_0000_0000, grid.num <= 4, grid.num >= 1;
        assert((end - start) * grid.num <= 0x0400_0000_0000_0000) by (nonlinear_arith)
            requires end - start <= 0x0100_0000_0000_0000, end >= start, grid.num <= 4, grid.num >= 1;
        assert(start * grid.num >= 0) by (nonlinear_arith) requires grid.num >= 1;
        assert((end - start) * grid.num >= 0) by (nonlinear_arith) requires end >= start, grid.num >= 1;
        crate::rat::lemma_reduce_props(start * grid.num, grid.den as int);
        crate::rat::lemma_reduce_props((end - start) * grid.num, grid.den as int);
    }
    let s = start as i64;
    let len = (end - start) as i64;
    ScoreNote {
        onset: Rat::new(s * grid.num, grid.den),
        duration: Rat::new(len * grid.num, grid.den),
        pitch,
    }
}

fn flatten(score: &Score, grid: Rat) -> (r: Vec<ScoreNote>)
    requires
        comparable(*score),
        grid_ok(grid),
    ensures
        r@ == flatten_spec(cells_view(*score), base_of(*score), grid, score.cells@.len() as int),
        forall|i: int| 0 <= i < r@.len() ==> note_ok(#[trigger] r@[i]),
{
    let base: i64 = match score.base_note_hint {
        Some(b) => b,
        None => DEFAULT_BASE_NOTE,
    };
    let ghost cv = cells_view(*score);
    let mut events: Vec<ScoreNote> = Vec::new();
    let mut c: usize = 0;
    while c < score.cells.len()
        invariant
            c <= score.cells@.len(),
            cv == cells_view(*score),
            comparable(*score),
            grid_ok(grid),
            base == base_of(*score),
            -0x1000_0000_0000_0000 <= base <= 0x1000_0000_0000_0000,
            events@ == flatten_spec(cv, base as int, grid, c as int),
            forall|i: int| 0 <= i < events@.len() ==> note_ok(#[trigger] events@[i]),
        decreases score.cells.len() - c,
    {
        let cell = &score.cells[c];
        proof {
            assert(cv[c as int] == cell@);
            assert(cell@.len() <= MAX_CELL_STEPS);
        }
        let ghost before = events@;
        let mut current: Option<(usize, i64)> = None;
        let mut end: usize = 0;
        let mut i: usize = 0;
        while i < cell.len()
            invariant
                i <= cell@.len(),
                cell@.len() <= MAX_CELL_STEPS,
                grid_ok(grid),
                -0x1000_0000_0000_0000 <= base <= 0x1000_0000_0000_0000,
                ({
                    let (cur, e, ev) = cell_fold(cell@, base as int, grid, i as int);
                    &&& e == end
                    &&& cur == (match current { Some((s, p)) => Some((s as int, p as int)), None => None })
                    &&& events@ == before + ev
                }),
                current matches Some((s, p)) ==> s < end <= i && -0x2000_0000_0000_0000 <= p <= 0x2000_0000_0000_0000,
                end <= i,
                forall|k: int| 0 <= k < events@.len() ==> note_ok(#[trigger] events@[k]),
            decreases cell.len() - i,
        {
            let step = cell[i];
            if step.held && current.is_some() {
                end = i + 1;
            } else {
                match current {
                    Some((start, pitch)) => {
                        let ghost evb = events@;
                        events.push(event_at(start, end, pitch, grid));
                        proof {
                            let (cur, e, ev) = cell_fold(cell@, base as int, grid, i as int);
                            assert(events@ =~= before + ev.push(note_at(start as int, end as int, pitch as int, grid)));
                        }
                    },
                    None => {},
                }
                match step.note {
                    Some(o) => {
                        current = Some((i, base + o as i64));
                        end = i + 1;
                    },
                    None => {
                        current = None;
                    },
                }
            }
            i = i + 1;
        }
        match current {
            Some((start, pitch)) => {
                events.push(event_at(start, end, pitch, grid));
            },
            None => {},
        }
        proof {
            assert(events@ =~= before + cell_notes(cell@, base as int, grid));
            assert(flatten_spec(cv, base as int, grid, c + 1) == flatten_spec(cv, base as int, grid, c as int) + cell_notes(cv[c as int], base as int, grid));
        }
        c = c + 1;
    }
    events
}

// ---------------------------------------------------------------------------
// Matching

/// `(a_on, a_p)` sorts before `(b_on, b_p)`: by onset value, then pitch.
pub open spec fn key_before(a_on: Rat, a_p: int, b_on: Rat, b_p: int) -> bool {
    a_on.lt_value(b_on) || (a_on.same_value(b_on) && a_p < b_p)
}

/// The unmatched reference durations, one entry per `(onset, pitch)` in key
/// order, durations in the order the reference wrote them.
pub open spec fn tfind(t: Seq<(Rat, i64, Seq<Rat>)>, on: Rat, p: int, k: int) -> Option<int>
    decreases t.len() - k,
{
    if k < 0 || k >= t.len() {
        None
    } else if t[k].0.same_value(on) && t[k].1 == p {
        Some(k)
    } else {
        tfind(t, on, p, k + 1)
    }
}

/// Where a new key goes: before the first entry that sorts after it.
pub open spec fn tpos(t: Seq<(Rat, i64, Seq<Rat>)>, on: Rat, p: int, k: int) -> int
    decreases t.len() - k,
{
    if k < 0 || k >= t.len() {
        t.len() as int
    } else if key_before(on, p, t[k].0, t[k].1 as int) {
        k
    } else {
        tpos(t, on, p, k + 1)
    }
}

/// The table after adding one reference note.
pub open spec fn tinsert(t: Seq<(Rat, i64, Seq<Rat>)>, n: ScoreNote) -> Seq<(Rat, i64, Seq<Rat>)> {
    match tfind(t, n.onset, n.pitch as int, 0) {
        Some(i) => t.update(i, (t[i].0, t[i].1, t[i].2.push(n.duration))),
        None => t.insert(tpos(t, n.onset, n.pitch as int, 0), (n.onset, n.pitch, seq![n.duration])),
    }
}

/// The table of the first `k` reference notes.
pub open spec fn ref_table(evs: Seq<ScoreNote>, k: int) -> Seq<(Rat, i64, Seq<Rat>)>
    decreases k,
{
    if k <= 0 || k > evs.len() {
        Seq::empty()
    } else {
        tinsert(ref_table(evs, k - 1), evs[k - 1])
    }
}

/// First duration equal in value to `d`.
pub open spec fn first_same(ds: Seq<Rat>, d: Rat, k: int) -> Option<int>
    decreases ds.len() - k,
{
    if k < 0 || k >= ds.len() {
        None
    } else if ds[k].same_value(d) {
        Some(k)
    } else {
        first_same(ds, d, k + 1)
    }
}

/// Matching state: the table of unmatched reference durations, the
/// matched count, the duration-exact count, the unmatched candidates.
pub struct MatchState {
    pub table: Seq<(Rat, i64, Seq<Rat>)>,
    pub matched: nat,
    pub duration_matches: nat,
    pub leftover: Seq<ScoreNote>,
}

/// One candidate note: it takes an unmatched reference note at its onset
/// and pitch when there is one, a duration-exact one when possible
/// (removed by swapping in the last), else the last.
pub open spec fn match_step(st: MatchState, n: ScoreNote) -> MatchState {
    match tfind(st.table, n.onset, n.pitch as int, 0) {
        None => MatchState { leftover: st.leftover.push(n), ..st },
        Some(i) => {
            let ds = st.table[i].2;
            if ds.len() == 0 {
                MatchState { leftover: st.leftover.push(n), ..st }
            } else {
                match first_same(ds, n.duration, 0) {
                    Some(j) => MatchState {
                        table: st.table.update(i, (st.table[i].0, st.table[i].1, ds.update(j, ds.last()).drop_last())),
                        matched: st.matched + 1,
                        duration_matches: st.duration_matches + 1,
                        ..st
                    },
                    None => MatchState {
                        table: st.table.update(i, (st.table[i].0, st.table[i].1, ds.drop_last())),
                        matched: st.matched + 1,
                        ..st
                    },
                }
            }
        },
    }
}

pub open spec fn match_fold(t0: Seq<(Rat, i64, Seq<Rat>)>, cands: Seq<ScoreNote>, k: int) -> MatchState
    decreases k,
{
    if k <= 0 || k > cands.len() {
        MatchState { table: t0, matched: 0, duration_matches: 0, leftover: Seq::empty() }
    } else {
        match_step(match_fold(t0, cands, k - 1), cands[k - 1])
    }
}

/// The unmatched reference notes as `(onset, pitch)`, in key order.
pub open spec fn ref_leftover(t: Seq<(Rat, i64, Seq<Rat>)>, k: int) -> Seq<(Rat, i64)>
    decreases k,
{
    if k <= 0 || k > t.len() {
        Seq::empty()
    } else {
        ref_leftover(t, k - 1) + Seq::new(t[k - 1].2.len(), |j: int| (t[k - 1].0, t[k - 1].1))
    }
}

/// `a` and `b` are at most `step` apart.
pub open spec fn within_one_step(a: Rat, b: Rat, step: Rat) -> bool {
    abs(a.num * b.den - b.num * a.den) * step.den <= step.num * a.den * b.den
}

/// First unused reference note at the same onset an octave multiple away.
pub open spec fn first_octave(rl: Seq<(Rat, i64)>, used: Seq<bool>, n: ScoreNote, k: int) -> Option<int>
    decreases rl.len() - k,
{
    if k < 0 || k >= rl.len() {
        None
    } else if !used[k] && rl[k].0.same_value(n.onset) && rl[k].1 != n.pitch && (rl[k].1 - n.pitch) % 12 == 0 {
        Some(k)
    } else {
        first_octave(rl, used, n, k + 1)
    }
}

/// First unused reference note of the same pitch at another onset within
/// one grid step.
pub open spec fn first_near(rl: Seq<(Rat, i64)>, used: Seq<bool>, n: ScoreNote, step: Rat, k: int) -> Option<int>
    decreases rl.len() - k,
{
    if k < 0 || k >= rl.len() {
        None
    } else if !used[k] && rl[k].1 == n.pitch && !rl[k].0.same_value(n.onset) && within_one_step(rl[k].0, n.onset, step) {
        Some(k)
    } else {
        first_near(rl, used, n, step, k + 1)
    }
}

/// Classifies the first `k` unmatched candidates: which reference notes
/// were used, the octave errors, the near-miss timings.
pub open spec fn diag_fold(rl: Seq<(Rat, i64)>, left: Seq<ScoreNote>, step: Rat, k: int) -> (Seq<bool>, nat, nat)
    decreases k,
{
    if k <= 0 || k > left.len() {
        (Seq::new(rl.len(), |i: int| false), 0, 0)
    } else {
        let (used, oct, near) = diag_fold(rl, left, step, k - 1);
        let n = left[k - 1];
        match first_octave(rl, used, n, 0) {
            Some(i) => (used.update(i, true), oct + 1, near),
            None => match first_near(rl, used, n, step, 0) {
                Some(i) => (used.update(i, true), oct, near + 1),
                None => (used, oct, near),
            },
        }
    }
}

/// `a` and `b` (positive denominators) are at most `step` apart: neither
/// exceeds the other by more than `step`.
pub open spec fn apart_at_most(a: Rat, b: Rat, step: Rat) -> bool {
    &&& (a.num * b.den - b.num * a.den) * step.den <= step.num * a.den * b.den
    &&& (b.num * a.den - a.num * b.den) * step.den <= step.num * a.den * b.den
}

proof fn lemma_first_near(rl: Seq<(Rat, i64)>, used: Seq<bool>, n: ScoreNote, step: Rat, k: int)
    requires
        0 <= k,
    ensures
        first_near(rl, used, n, step, k) matches Some(i) ==> k <= i < rl.len() && rl[i].1 == n.pitch
            && !rl[i].0.same_value(n.onset) && within_one_step(rl[i].0, n.onset, step),
    decreases rl.len() - k,
{
    if k < rl.len() && first_near(rl, used, n, step, k) != first_near(rl, used, n, step, k + 1) {
    } else if k < rl.len() {
        lemma_first_near(rl, used, n, step, k + 1);
    }
}

/// A timing near miss is charged to an unmatched candidate note only when
/// an unmatched reference note of the same pitch starts at another onset
/// at most one grid step away, earlier or later: the count grows by one
/// for such a candidate and by nothing otherwise.
pub proof fn lemma_near_misses_lie_within_one_step(rl: Seq<(Rat, i64)>, left: Seq<ScoreNote>, step: Rat, k: int)
    requires
        1 <= k <= left.len(),
        step.den > 0,
    ensures
        diag_fold(rl, left, step, k).2 == diag_fold(rl, left, step, k - 1).2
            || (diag_fold(rl, left, step, k).2 == diag_fold(rl, left, step, k - 1).2 + 1
                && exists|i: int| 0 <= i < rl.len() && #[trigger] rl[i].1 == left[k - 1].pitch
                    && !rl[i].0.same_value(left[k - 1].onset) && apart_at_most(rl[i].0, left[k - 1].onset, step)),
{
    let (used, oct, near) = diag_fold(rl, left, step, k - 1);
    let n = left[k - 1];
    match first_octave(rl, used, n, 0) {
        Some(_) => {},
        None => {
            lemma_first_near(rl, used, n, step, 0);
            match first_near(rl, used, n, step, 0) {
                Some(i) => {
                    let a = rl[i].0;
                    let b = n.onset;
                    let x = a.num * b.den - b.num * a.den;
                    assert(abs(x) * step.den <= step.num * a.den * b.den);
                    assert(x * step.den <= abs(x) * step.den) by (nonlinear_arith)
                        requires x <= abs(x), step.den >= 0;
                    assert(-x * step.den <= abs(x) * step.den) by (nonlinear_arith)
                        requires -x <= abs(x), step.den >= 0;
                    assert((b.num * a.den - a.num * b.den) == -x);
                },
                None => {},
            }
        },
    }
}

/// With no unmatched same-pitch pair at distinct onsets at most one grid
/// step apart, there is no timing near miss, however close other pairs are
/// in pitch.
pub proof fn lemma_no_close_pair_no_near_miss(rl: Seq<(Rat, i64)>, left: Seq<ScoreNote>, step: Rat, k: int)
    requires
        0 <= k <= left.len(),
        step.den > 0,
        forall|i: int, j: int| 0 <= i < rl.len() && 0 <= j < k && rl[i].1 == left[j].pitch
            && !rl[i].0.same_value(left[j].onset) ==> !apart_at_most(rl[i].0, left[j].onset, step),
    ensures
        diag_fold(rl, left, step, k).2 == 0,
    decreases k,
{
    if k > 0 {
        lemma_no_close_pair_no_near_miss(rl, left, step, k - 1);
        lemma_near_misses_lie_within_one_step(rl, left, step, k);
    }
}

// ---------------------------------------------------------------------------
// Totals

/// The longest cell's length.
pub open spec fn longest(cells: Seq<Seq<Step>>, k: int) -> int
    decreases k,
{
    if k <= 0 || k > cells.len() {
        0
    } else {
        let m = longest(cells, k - 1);
        if cells[k - 1].len() > m { cells[k - 1].len() as int } else { m }
    }
}

/// Total sounding span: the longest cell, in quarter notes.
pub open spec fn total_spec(s: Score, grid: Rat) -> Rat {
    Rat::from_pair(reduce(longest(cells_view(s), s.cells@.len() as int) * grid.num, grid.den as int))
}

/// Measures in `total`, when the time signature divides it evenly.
pub open spec fn measures_spec(s: Score, total: Rat) -> Option<u64> {
    match s.time_signature {
        None => None,
        Some(t) => match total.spec_div_exact(Rat::from_pair(reduce(t.beats_per_measure * 4, t.beat_unit as int))) {
            Some(k) => if k <= i64::MAX { Some(k as u64) } else { None },
            None => None,
        },
    }
}

/// A duration in quarter notes as text: `151`, or `603/4`.
pub open spec fn quarters_text(v: Rat) -> Seq<char> {
    if v.den == 1 { decimal(v.num as int) } else { decimal(v.num as int) + "/"@ + decimal(v.den as int) }
}

/// The error for a grid name that is not one.
pub open spec fn grid_error(label: Seq<char>, name: Seq<char>) -> Seq<char> {
    label + " has an unrecognized rhythm_grid '"@ + name + "'"@
}

/// The grid a score is written on: its named grid, or one quarter note.
pub open spec fn grid_spec(s: Score) -> Option<Rat> {
    match s.rhythm_grid {
        Some(name) => note_value_spec(name@),
        None => Some(Rat { num: 1, den: 1 }),
    }
}

/// The counts of a note-level comparison.
pub struct CompareCounts {
    /// Notes present in both scores at the same onset and pitch.
    pub matched: usize,
    /// Candidate notes with no reference counterpart.
    pub candidate_only: usize,
    /// Reference notes the candidate missed.
    pub reference_only: usize,
    pub candidate_notes: usize,
    pub reference_notes: usize,
    /// Matched notes whose durations are also equal.
    pub duration_matches: usize,
    /// Unmatched pairs at the same onset whose pitches differ by octaves.
    pub octave_errors: usize,
    /// Unmatched pairs with the same pitch within one grid step.
    pub timing_near_misses: usize,
    /// Total sounding length of each score, in quarter notes, as text.
    pub candidate_duration_quarters: String,
    pub reference_duration_quarters: String,
    /// Whether the two scores span the same total duration.
    pub total_duration_match: bool,
    /// Measure counts, when a score's time signature divides its length.
    pub candidate_measures: Option<u64>,
    pub reference_measures: Option<u64>,
    /// Perfect transcription: every note matched with its duration, same
    /// total length.
    pub exact: bool,
}

/// What comparing `candidate` against `reference` on grids `cg` and `rg`
/// counts.
pub open spec fn counts_ok(candidate: Score, reference: Score, cg: Rat, rg: Rat, r: CompareCounts) -> bool {
    let ce = flatten_spec(cells_view(candidate), base_of(candidate), cg, candidate.cells@.len() as int);
    let re = flatten_spec(cells_view(reference), base_of(reference), rg, reference.cells@.len() as int);
    let t0 = ref_table(re, re.len() as int);
    let m = match_fold(t0, ce, ce.len() as int);
    let rl = ref_leftover(m.table, m.table.len() as int);
    let step = if cg.lt_value(rg) { rg } else { cg };
    let d = diag_fold(rl, m.leftover, step, m.leftover.len() as int);
    let ct = total_spec(candidate, cg);
    let rt = total_spec(reference, rg);
    &&& r.candidate_notes == ce.len()
    &&& r.reference_notes == re.len()
    &&& r.matched == m.matched
    &&& r.candidate_only == ce.len() - m.matched
    &&& r.reference_only == re.len() - m.matched
    &&& r.duration_matches == m.duration_matches
    &&& r.octave_errors == d.1
    &&& r.timing_near_misses == d.2
    &&& r.candidate_duration_quarters@ == quarters_text(ct)
    &&& r.reference_duration_quarters@ == quarters_text(rt)
    &&& r.total_duration_match == (ct == rt)
    &&& r.candidate_measures == measures_spec(candidate, ct)
    &&& r.reference_measures == measures_spec(reference, rt)
    &&& r.exact == (m.matched == ce.len() && m.matched == re.len() && m.duration_matches == m.matched && ct == rt)
}


// ---------------------------------------------------------------------------
// Executable matching

pub open spec fn tview(t: Seq<(Rat, i64, Vec<Rat>)>) -> Seq<(Rat, i64, Seq<Rat>)> {
    Seq::new(t.len(), |i: int| (t[i].0, t[i].1, t[i].2@))
}

/// Entries are keyed within bounds.
pub open spec fn table_ok(t: Seq<(Rat, i64, Seq<Rat>)>) -> bool {
    forall|i: int| 0 <= i < t.len() ==> {
        &&& (#[trigger] t[i]).0.den > 0
        &&& -0x0400_0000_0000_0000 <= t[i].0.num <= 0x0400_0000_0000_0000
        &&& t[i].0.den <= 128
        &&& -0x2000_0000_0000_0000 <= t[i].1 <= 0x2000_0000_0000_0000
        &&& forall|j: int| 0 <= j < t[i].2.len() ==> (#[trigger] t[i].2[j]).den > 0
    }
}

/// The number of durations in the first `k` entries.
pub open spec fn tsize(t: Seq<(Rat, i64, Seq<Rat>)>, k: int) -> int
    decreases k,
{
    if k <= 0 || k > t.len() {
        0
    } else {
        tsize(t, k - 1) + t[k - 1].2.len()
    }
}

proof fn lemma_tsize_update(t: Seq<(Rat, i64, Seq<Rat>)>, i: int, e: (Rat, i64, Seq<Rat>), k: int)
    requires
        0 <= i < t.len(),
        0 <= k <= t.len(),
    ensures
        tsize(t.update(i, e), k) == tsize(t, k) + (if i < k { e.2.len() - t[i].2.len() } else { 0 }),
        tsize(t, k) >= 0,
    decreases k,
{
    if k > 0 {
        lemma_tsize_update(t, i, e, k - 1);
    }
}

proof fn lemma_tsize_insert(t: Seq<(Rat, i64, Seq<Rat>)>, pos: int, e: (Rat, i64, Seq<Rat>), k: int)
    requires
        0 <= pos <= t.len(),
        0 <= k <= t.len(),
    ensures
        k < pos ==> tsize(t.insert(pos, e), k) == tsize(t, k),
        k == pos ==> tsize(t.insert(pos, e), k) == tsize(t, k),
        k >= pos ==> tsize(t.insert(pos, e), k + 1) == tsize(t, k) + e.2.len(),
    decreases k,
{
    let s = t.insert(pos, e);
    if k > 0 {
        lemma_tsize_insert(t, pos, e, k - 1);
        if k - 1 < pos {
            assert(s[k - 1] == t[k - 1]);
        } else {
            assert(s[k] == t[k - 1]);
        }
    }
    if k >= pos {
        assert(s[k] == (if k == pos { e } else { t[k - 1] }));
        assert(tsize(s, k + 1) == tsize(s, k) + s[k].2.len());
        if k == pos {
            assert(tsize(s, k) == tsize(t, k));
        } else {
            assert(tsize(s, k) == tsize(t, k - 1) + e.2.len());
            assert(tsize(t, k) == tsize(t, k - 1) + t[k - 1].2.len());
        }
    }
}

proof fn lemma_tsize_nonneg(t: Seq<(Rat, i64, Seq<Rat>)>, k: int)
    ensures
        tsize(t, k) >= 0,
    decreases k,
{
    if k > 0 && k <= t.len() {
        lemma_tsize_nonneg(t, k - 1);
    }
}

fn key_lt(a_on: Rat, a_p: i64, b_on: Rat, b_p: i64) -> (r: bool)
    requires
        a_on.den > 0,
        b_on.den > 0,
    ensures
        r == key_before(a_on, a_p as int, b_on, b_p as int),
{
    a_on.lt(b_on) || (a_on.same(b_on) && a_p < b_p)
}

fn table_find(t: &Vec<(Rat, i64, Vec<Rat>)>, on: Rat, p: i64) -> (r: Option<usize>)
    requires
        table_ok(tview(t@)),
        on.den > 0,
    ensures
        r matches Some(i) ==> i < t@.len() && tfind(tview(t@), on, p as int, 0) == Some(i as int),
        r is None ==> tfind(tview(t@), on, p as int, 0) is None,
{
    let ghost tv = tview(t@);
    let mut i: usize = 0;
    while i < t.len()
        invariant
            i <= t@.len(),
            tv == tview(t@),
            table_ok(tv),
            on.den > 0,
            tfind(tv, on, p as int, 0) == tfind(tv, on, p as int, i as int),
        decreases t.len() - i,
    {
        proof {
            assert(tv[i as int].0 == t@[i as int].0);
            assert(tv[i as int].0.den > 0);
        }
        if t[i].0.same(on) && t[i].1 == p {
            return Some(i);
        }
        i = i + 1;
    }
    None
}

fn table_pos(t: &Vec<(Rat, i64, Vec<Rat>)>, on: Rat, p: i64) -> (r: usize)
    requires
        table_ok(tview(t@)),
        on.den > 0,
    ensures
        r as int == tpos(tview(t@), on, p as int, 0),
        r <= t@.len(),
{
    let ghost tv = tview(t@);
    let mut i: usize = 0;
    while i < t.len()
        invariant
            i <= t@.len(),
            tv == tview(t@),
            table_ok(tv),
            on.den > 0,
            tpos(tv, on, p as int, 0) == tpos(tv, on, p as int, i as int),
        decreases t.len() - i,
    {
        proof {
            assert(tv[i as int].0 == t@[i as int].0);
            assert(tv[i as int].0.den > 0);
        }
        if key_lt(on, p, t[i].0, t[i].1) {
            return i;
        }
        i = i + 1;
    }
    i
}

fn copy_rats(v: &Vec<Rat>) -> (r: Vec<Rat>)
    ensures
        r@ == v@,
{
    let mut r: Vec<Rat> = Vec::new();
    let mut i: usize = 0;
    while i < v.len()
        invariant
            i <= v@.len(),
            r@ == v@.take(i as int),
        decreases v.len() - i,
    {
        r.push(v[i]);
        i = i + 1;
        proof {
            assert(r@ =~= v@.take(i as int));
        }
    }
    proof {
        assert(v@.take(v@.len() as int) =~= v@);
    }
    r
}

/// Replaces the durations of entry `i`.
fn set_durations(t: &mut Vec<(Rat, i64, Vec<Rat>)>, i: usize, ds: Vec<Rat>)
    requires
        i < old(t)@.len(),
    ensures
        tview(final(t)@) == tview(old(t)@).update(i as int, (old(t)@[i as int].0, old(t)@[i as int].1, ds@)),
{
    let e = t.remove(i);
    t.insert(i, (e.0, e.1, ds));
    proof {
        assert(tview(t@) =~= tview(old(t)@).update(i as int, (old(t)@[i as int].0, old(t)@[i as int].1, ds@)));
    }
}

fn build_table(evs: &Vec<ScoreNote>) -> (r: Vec<(Rat, i64, Vec<Rat>)>)
    requires
        forall|i: int| 0 <= i < evs@.len() ==> note_ok(#[trigger] evs@[i]),
    ensures
        tview(r@) == ref_table(evs@, evs@.len() as int),
        table_ok(tview(r@)),
        tsize(tview(r@), r@.len() as int) == evs@.len(),
{
    let mut t: Vec<(Rat, i64, Vec<Rat>)> = Vec::new();
    let mut k: usize = 0;
    proof {
        assert(tview(t@) =~= Seq::<(Rat, i64, Seq<Rat>)>::empty());
    }
    while k < evs.len()
        invariant
            k <= evs@.len(),
            forall|i: int| 0 <= i < evs@.len() ==> note_ok(#[trigger] evs@[i]),
            tview(t@) == ref_table(evs@, k as int),
            table_ok(tview(t@)),
            tsize(tview(t@), t@.len() as int) == k,
        decreases evs.len() - k,
    {
        let n = evs[k];
        proof {
            assert(note_ok(evs@[k as int]));
        }
        let ghost tv = tview(t@);
        match table_find(&t, n.onset, n.pitch) {
            Some(i) => {
                let mut ds = copy_rats(&t[i].2);
                ds.push(n.duration);
                proof {
                    assert(ds@ == tv[i as int].2.push(n.duration));
                }
                set_durations(&mut t, i, ds);
                proof {
                    assert(tview(t@) =~= tinsert(tv, n));
                    lemma_tsize_update(tv, i as int, (tv[i as int].0, tv[i as int].1, tv[i as int].2.push(n.duration)), tv.len() as int);
                }
            },
            None => {
                let pos = table_pos(&t, n.onset, n.pitch);
                let mut ds: Vec<Rat> = Vec::new();
                ds.push(n.duration);
                t.insert(pos, (n.onset, n.pitch, ds));
                proof {
                    assert(ds@ =~= seq![n.duration]);
                    assert(tview(t@) =~= tinsert(tv, n));
                    assert(tview(t@) =~= tv.insert(pos as int, (n.onset, n.pitch, seq![n.duration])));
                    lemma_tsize_insert(tv, pos as int, (n.onset, n.pitch, seq![n.duration]), tv.len() as int);
                }
            },
        }
        proof {
            let nt = tview(t@);
            assert forall|i: int| 0 <= i < nt.len() implies {
                &&& (#[trigger] nt[i]).0.den > 0
                &&& -0x0400_0000_0000_0000 <= nt[i].0.num <= 0x0400_0000_0000_0000
                &&& nt[i].0.den <= 128
                &&& forall|j: int| 0 <= j < nt[i].2.len() ==> (#[trigger] nt[i].2[j]).den > 0
            } by {
                match tfind(tv, n.onset, n.pitch as int, 0) {
                    Some(f) => {
                        if i != f {
                            assert(nt[i] == tv[i]);
                        } else {
                            assert(nt[i].2 == tv[i].2.push(n.duration));
                            assert forall|j: int| 0 <= j < nt[i].2.len() implies (#[trigger] nt[i].2[j]).den > 0 by {
                                if j < tv[i].2.len() {
                                    assert(nt[i].2[j] == tv[i].2[j]);
                                }
                            }
                        }
                    },
                    None => {
                        let pos = tpos(tv, n.onset, n.pitch as int, 0);
                        if i < pos {
                            assert(nt[i] == tv[i]);
                        } else if i > pos {
                            assert(nt[i] == tv[i - 1]);
                        }
                    },
                }
            }
        }
        k = k + 1;
    }
    t
}

proof fn lemma_tfind_bounds(t: Seq<(Rat, i64, Seq<Rat>)>, on: Rat, p: int, k: int)
    requires
        0 <= k,
    ensures
        tfind(t, on, p, k) matches Some(i) ==> k <= i < t.len(),
    decreases t.len() - k,
{
    if k < t.len() && !(t[k].0.same_value(on) && t[k].1 == p) {
        lemma_tfind_bounds(t, on, p, k + 1);
    }
}

proof fn lemma_tpos_bounds(t: Seq<(Rat, i64, Seq<Rat>)>, on: Rat, p: int, k: int)
    requires
        0 <= k,
    ensures
        0 <= tpos(t, on, p, k) <= t.len(),
    decreases t.len() - k,
{
    if k < t.len() && !key_before(on, p, t[k].0, t[k].1 as int) {
        lemma_tpos_bounds(t, on, p, k + 1);
    }
}

fn first_same_exec(ds: &Vec<Rat>, d: Rat) -> (r: Option<usize>)
    requires
        d.den > 0,
        forall|j: int| 0 <= j < ds@.len() ==> (#[trigger] ds@[j]).den > 0,
    ensures
        r matches Some(j) ==> j < ds@.len() && first_same(ds@, d, 0) == Some(j as int),
        r is None ==> first_same(ds@, d, 0) is None,
{
    let mut j: usize = 0;
    while j < ds.len()
        invariant
            j <= ds@.len(),
            d.den > 0,
            forall|k: int| 0 <= k < ds@.len() ==> (#[trigger] ds@[k]).den > 0,
            first_same(ds@, d, 0) == first_same(ds@, d, j as int),
        decreases ds.len() - j,
    {
        proof {
            assert(ds@[j as int].den > 0);
        }
        if ds[j].same(d) {
            return Some(j);
        }
        j = j + 1;
    }
    None
}


struct Matching {
    table: Vec<(Rat, i64, Vec<Rat>)>,
    matched: usize,
    duration_matches: usize,
    leftover: Vec<ScoreNote>,
}

fn match_candidates(t0: Vec<(Rat, i64, Vec<Rat>)>, cands: &Vec<ScoreNote>) -> (r: Matching)
    requires
        table_ok(tview(t0@)),
        forall|i: int| 0 <= i < cands@.len() ==> note_ok(#[trigger] cands@[i]),
    ensures
        ({
            let m = match_fold(tview(t0@), cands@, cands@.len() as int);
            &&& tview(r.table@) == m.table
            &&& r.matched == m.matched
            &&& r.duration_matches == m.duration_matches
            &&& r.leftover@ == m.leftover
            &&& table_ok(m.table)
            &&& m.matched <= cands@.len()
            &&& m.matched + tsize(m.table, m.table.len() as int) == tsize(tview(t0@), t0@.len() as int)
            &&& forall|i: int| 0 <= i < r.leftover@.len() ==> note_ok(#[trigger] r.leftover@[i])
        }),
{
    let ghost tv0 = tview(t0@);
    let mut t = t0;
    let mut matched: usize = 0;
    let mut duration_matches: usize = 0;
    let mut leftover: Vec<ScoreNote> = Vec::new();
    let mut k: usize = 0;
    while k < cands.len()
        invariant
            k <= cands@.len(),
            forall|i: int| 0 <= i < cands@.len() ==> note_ok(#[trigger] cands@[i]),
            ({
                let m = match_fold(tv0, cands@, k as int);
                &&& tview(t@) == m.table
                &&& matched == m.matched
                &&& duration_matches == m.duration_matches
                &&& leftover@ == m.leftover
            }),
            table_ok(tview(t@)),
            matched <= k,
            duration_matches <= matched,
            t@.len() == t0@.len(),
            matched + tsize(tview(t@), t@.len() as int) == tsize(tv0, t0@.len() as int),
            forall|i: int| 0 <= i < leftover@.len() ==> note_ok(#[trigger] leftover@[i]),
        decreases cands.len() - k,
    {
        let n = cands[k];
        proof {
            assert(note_ok(cands@[k as int]));
        }
        let ghost tv = tview(t@);
        match table_find(&t, n.onset, n.pitch) {
            None => {
                leftover.push(n);
            },
            Some(i) => {
                if t[i].2.len() == 0 {
                    leftover.push(n);
                } else {
                    let mut ds = copy_rats(&t[i].2);
                    proof {
                        assert(tv[i as int].2 == ds@);
                        assert(table_ok(tv));
                        assert(tv[i as int].0.den > 0);
                    }
                    matched = matched + 1;
                    match first_same_exec(&ds, n.duration) {
                        Some(j) => {
                            ds.swap_remove(j);
                            duration_matches = duration_matches + 1;
                        },
                        None => {
                            ds.pop();
                        },
                    }
                    let ghost nds = ds@;
                    set_durations(&mut t, i, ds);
                    proof {
                        lemma_tsize_update(tv, i as int, (tv[i as int].0, tv[i as int].1, nds), tv.len() as int);
                        let nt = tview(t@);
                        assert forall|a: int| 0 <= a < nt.len() implies {
                            &&& (#[trigger] nt[a]).0.den > 0
                            &&& -0x0400_0000_0000_0000 <= nt[a].0.num <= 0x0400_0000_0000_0000
                            &&& nt[a].0.den <= 128
                            &&& forall|j: int| 0 <= j < nt[a].2.len() ==> (#[trigger] nt[a].2[j]).den > 0
                        } by {
                            if a != i {
                                assert(nt[a] == tv[a]);
                            } else {
                                assert forall|j: int| 0 <= j < nt[a].2.len() implies (#[trigger] nt[a].2[j]).den > 0 by {
                                    let old_ds = tv[a].2;
                                    assert(nt[a].2 == nds);
                                    if nds.len() < old_ds.len() {
                                        if j < old_ds.len() - 1 {
                                            assert(nds[j] == old_ds[j] || nds[j] == old_ds.last());
                                        }
                                    }
                                }
                            }
                        }
                    }
                }
            },
        }
        k = k + 1;
    }
    Matching { table: t, matched, duration_matches, leftover }
}

fn leftover_keys(t: &Vec<(Rat, i64, Vec<Rat>)>) -> (r: Vec<(Rat, i64)>)
    requires
        table_ok(tview(t@)),
    ensures
        r@ == ref_leftover(tview(t@), t@.len() as int),
        forall|i: int| 0 <= i < r@.len() ==> (#[trigger] r@[i]).0.den > 0
            && -0x0400_0000_0000_0000 <= r@[i].0.num <= 0x0400_0000_0000_0000 && r@[i].0.den <= 128,
        forall|i: int| 0 <= i < r@.len() ==> -0x2000_0000_0000_0000 <= (#[trigger] r@[i]).1 <= 0x2000_0000_0000_0000,
{
    let ghost tv = tview(t@);
    let mut r: Vec<(Rat, i64)> = Vec::new();
    let mut k: usize = 0;
    while k < t.len()
        invariant
            k <= t@.len(),
            tv == tview(t@),
            table_ok(tv),
            r@ == ref_leftover(tv, k as int),
            forall|i: int| 0 <= i < r@.len() ==> (#[trigger] r@[i]).0.den > 0
                && -0x0400_0000_0000_0000 <= r@[i].0.num <= 0x0400_0000_0000_0000 && r@[i].0.den <= 128,
            forall|i: int| 0 <= i < r@.len() ==> -0x2000_0000_0000_0000 <= (#[trigger] r@[i]).1 <= 0x2000_0000_0000_0000,
        decreases t.len() - k,
    {
        let ghost before = r@;
        proof {
            assert(tv[k as int].0 == t@[k as int].0);
        }
        let mut j: usize = 0;
        while j < t[k].2.len()
            invariant
                k < t@.len(),
                j <= t@[k as int].2@.len(),
                tv == tview(t@),
                table_ok(tv),
                r@ == before + Seq::new(j as nat, |x: int| (tv[k as int].0, tv[k as int].1)),
                forall|i: int| 0 <= i < r@.len() ==> (#[trigger] r@[i]).0.den > 0
                    && -0x0400_0000_0000_0000 <= r@[i].0.num <= 0x0400_0000_0000_0000 && r@[i].0.den <= 128,
                forall|i: int| 0 <= i < r@.len() ==> -0x2000_0000_0000_0000 <= (#[trigger] r@[i]).1 <= 0x2000_0000_0000_0000,
            decreases t@[k as int].2@.len() - j,
        {
            r.push((t[k].0, t[k].1));
            j = j + 1;
            proof {
                assert(r@ =~= before + Seq::new(j as nat, |x: int| (tv[k as int].0, tv[k as int].1)));
            }
        }
        proof {
            assert(r@ =~= ref_leftover(tv, k + 1));
        }
        k = k + 1;
    }
    r
}

fn within_step(a: Rat, b: Rat, step: Rat) -> (r: bool)
    requires
        a.den > 0 && a.den <= 128 && -0x0400_0000_0000_0000 <= a.num <= 0x0400_0000_0000_0000,
        b.den > 0 && b.den <= 128 && -0x0400_0000_0000_0000 <= b.num <= 0x0400_0000_0000_0000,
        grid_ok(step),
    ensures
        r == within_one_step(a, b, step),
{
    proof {
        assert(-0x0400_0000_0000_0000 * 128 <= a.num * b.den <= 0x0400_0000_0000_0000 * 128) by (nonlinear_arith)
            requires 0 < b.den <= 128, -0x0400_0000_0000_0000 <= a.num <= 0x0400_0000_0000_0000;
        assert(-0x0400_0000_0000_0000 * 128 <= b.num * a.den <= 0x0400_0000_0000_0000 * 128) by (nonlinear_arith)
            requires 0 < a.den <= 128, -0x0400_0000_0000_0000 <= b.num <= 0x0400_0000_0000_0000;
    }
    let x: i128 = (a.num as i128) * (b.den as i128) - (b.num as i128) * (a.den as i128);
    let ax: i128 = if x < 0 { -x } else { x };
    proof {
        assert(ax * step.den <= 0x0400_0000_0000_0000 * 256 * 128) by (nonlinear_arith)
            requires 0 <= ax <= 0x0400_0000_0000_0000 * 256, 0 < step.den <= 128;
        assert(0 <= step.num * a.den <= 4 * 128) by (nonlinear_arith)
            requires 0 < step.num <= 4, 0 < a.den <= 128;
        assert(step.num * a.den * b.den <= 4 * 128 * 128) by (nonlinear_arith)
            requires 0 < step.num <= 4, 0 < a.den <= 128, 0 < b.den <= 128;
        assert(step.num * a.den * b.den >= 0) by (nonlinear_arith)
            requires 0 < step.num <= 4, 0 < a.den <= 128, 0 < b.den <= 128;
        assert(ax * step.den >= 0) by (nonlinear_arith) requires ax >= 0, step.den > 0;
    }
    ax * (step.den as i128) <= (step.num as i128) * (a.den as i128) * (b.den as i128)
}

fn octave_apart(x: i64, y: i64) -> (r: bool)
    requires
        -0x2000_0000_0000_0000 <= x <= 0x2000_0000_0000_0000,
        -0x2000_0000_0000_0000 <= y <= 0x2000_0000_0000_0000,
    ensures
        r == (x != y && (x - y) % 12 == 0),
{
    let d = x - y;
    proof {
        if d < 0 {
            assert((d % 12 == 0) == ((-d) % 12 == 0)) by {
                vstd::arithmetic::div_mod::lemma_fundamental_div_mod(d as int, 12);
                vstd::arithmetic::div_mod::lemma_fundamental_div_mod((-d) as int, 12);
                if d % 12 == 0 {
                    assert(-d == 12 * (-(d / 12)));
                    vstd::arithmetic::div_mod::lemma_mod_multiples_basic(-(d / 12), 12);
                    assert((12 * (-(d / 12))) % 12 == 0) by {
                        vstd::arithmetic::mul::lemma_mul_is_commutative(12, -(d / 12));
                    }
                }
                if (-d) % 12 == 0 {
                    assert(d == 12 * (-((-d) / 12)));
                    vstd::arithmetic::div_mod::lemma_mod_multiples_basic(-((-d) / 12), 12);
                    vstd::arithmetic::mul::lemma_mul_is_commutative(12, -((-d) / 12));
                }
            }
        }
    }
    let m = if d < 0 { (-d) % 12 } else { d % 12 };
    d != 0 && m == 0
}

fn find_octave(rl: &Vec<(Rat, i64)>, used: &Vec<bool>, n: ScoreNote) -> (r: Option<usize>)
    requires
        used@.len() == rl@.len(),
        forall|i: int| 0 <= i < rl@.len() ==> (#[trigger] rl@[i]).0.den > 0,
        forall|i: int| 0 <= i < rl@.len() ==> -0x2000_0000_0000_0000 <= (#[trigger] rl@[i]).1 <= 0x2000_0000_0000_0000,
        note_ok(n),
    ensures
        r matches Some(a) ==> a < rl@.len() && first_octave(rl@, used@, n, 0) == Some(a as int),
        r is None ==> first_octave(rl@, used@, n, 0) is None,
{
    let mut a: usize = 0;
    while a < rl.len()
        invariant
            a <= rl@.len(),
            used@.len() == rl@.len(),
            forall|i: int| 0 <= i < rl@.len() ==> (#[trigger] rl@[i]).0.den > 0,
            forall|i: int| 0 <= i < rl@.len() ==> -0x2000_0000_0000_0000 <= (#[trigger] rl@[i]).1 <= 0x2000_0000_0000_0000,
            note_ok(n),
            first_octave(rl@, used@, n, 0) == first_octave(rl@, used@, n, a as int),
        decreases rl.len() - a,
    {
        proof {
            assert(rl@[a as int].0.den > 0);
            assert(-0x2000_0000_0000_0000 <= rl@[a as int].1 <= 0x2000_0000_0000_0000);
        }
        if !used[a] && rl[a].0.same(n.onset) && octave_apart(rl[a].1, n.pitch) {
            return Some(a);
        }
        a = a + 1;
    }
    None
}

fn find_near(rl: &Vec<(Rat, i64)>, used: &Vec<bool>, n: ScoreNote, step: Rat) -> (r: Option<usize>)
    requires
        used@.len() == rl@.len(),
        forall|i: int| 0 <= i < rl@.len() ==> (#[trigger] rl@[i]).0.den > 0
            && -0x0400_0000_0000_0000 <= rl@[i].0.num <= 0x0400_0000_0000_0000 && rl@[i].0.den <= 128,
        note_ok(n),
        grid_ok(step),
    ensures
        r matches Some(a) ==> a < rl@.len() && first_near(rl@, used@, n, step, 0) == Some(a as int),
        r is None ==> first_near(rl@, used@, n, step, 0) is None,
{
    let mut a: usize = 0;
    while a < rl.len()
        invariant
            a <= rl@.len(),
            used@.len() == rl@.len(),
            forall|i: int| 0 <= i < rl@.len() ==> (#[trigger] rl@[i]).0.den > 0
                && -0x0400_0000_0000_0000 <= rl@[i].0.num <= 0x0400_0000_0000_0000 && rl@[i].0.den <= 128,
            note_ok(n),
            grid_ok(step),
            first_near(rl@, used@, n, step, 0) == first_near(rl@, used@, n, step, a as int),
        decreases rl.len() - a,
    {
        proof {
            assert(rl@[a as int].0.den > 0);
        }
        if !used[a] && rl[a].1 == n.pitch && !rl[a].0.same(n.onset) && within_step(rl[a].0, n.onset, step) {
            return Some(a);
        }
        a = a + 1;
    }
    None
}

fn classify(rl: &Vec<(Rat, i64)>, left: &Vec<ScoreNote>, step: Rat) -> (r: (usize, usize))
    requires
        forall|i: int| 0 <= i < rl@.len() ==> (#[trigger] rl@[i]).0.den > 0
            && -0x0400_0000_0000_0000 <= rl@[i].0.num <= 0x0400_0000_0000_0000 && rl@[i].0.den <= 128,
        forall|i: int| 0 <= i < rl@.len() ==> -0x2000_0000_0000_0000 <= (#[trigger] rl@[i]).1 <= 0x2000_0000_0000_0000,
        forall|i: int| 0 <= i < left@.len() ==> note_ok(#[trigger] left@[i]),
        grid_ok(step),
    ensures
        ({
            let d = diag_fold(rl@, left@, step, left@.len() as int);
            &&& r.0 == d.1
            &&& r.1 == d.2
        }),
{
    let mut used: Vec<bool> = Vec::new();
    let mut i: usize = 0;
    while i < rl.len()
        invariant
            i <= rl@.len(),
            used@ == Seq::new(i as nat, |x: int| false),
        decreases rl.len() - i,
    {
        used.push(false);
        i = i + 1;
        proof {
            assert(used@ =~= Seq::new(i as nat, |x: int| false));
        }
    }
    let mut oct: usize = 0;
    let mut near: usize = 0;
    let mut k: usize = 0;
    while k < left.len()
        invariant
            k <= left@.len(),
            used@.len() == rl@.len(),
            forall|i: int| 0 <= i < rl@.len() ==> (#[trigger] rl@[i]).0.den > 0
                && -0x0400_0000_0000_0000 <= rl@[i].0.num <= 0x0400_0000_0000_0000 && rl@[i].0.den <= 128,
            forall|i: int| 0 <= i < rl@.len() ==> -0x2000_0000_0000_0000 <= (#[trigger] rl@[i]).1 <= 0x2000_0000_0000_0000,
            forall|i: int| 0 <= i < left@.len() ==> note_ok(#[trigger] left@[i]),
            grid_ok(step),
            ({
                let d = diag_fold(rl@, left@, step, k as int);
                &&& used@ == d.0
                &&& oct == d.1
                &&& near == d.2
            }),
            oct + near <= k,
        decreases left.len() - k,
    {
        let n = left[k];
        proof {
            assert(note_ok(left@[k as int]));
        }
        let ghost d0 = diag_fold(rl@, left@, step, k as int);
        match find_octave(rl, &used, n) {
            Some(a) => {
                used.set(a, true);
                oct = oct + 1;
            },
            None => match find_near(rl, &used, n, step) {
                Some(a) => {
                    used.set(a, true);
                    near = near + 1;
                },
                None => {},
            },
        }
        k = k + 1;
    }
    (oct, near)
}


// ---------------------------------------------------------------------------
// Totals and the comparison

fn score_grid(score: &Score, label: &str) -> (r: Result<Rat, String>)
    ensures
        match grid_spec(*score) {
            Some(g) => r == Ok::<Rat, String>(g),
            None => r matches Err(e) && e@ == grid_error(label@, score.rhythm_grid->Some_0@),
        },
        r matches Ok(g) ==> grid_ok(g),
{
    match &score.rhythm_grid {
        Some(name) => match note_value_from_name(name.as_str()) {
            Some(g) => Ok(g),
            None => {
                let mut m: Vec<char> = chars_of(label);
                push_str(&mut m, " has an unrecognized rhythm_grid '");
                push_str(&mut m, name.as_str());
                push_str(&mut m, "'");
                proof {
                    assert(m@ =~= grid_error(label@, name@));
                }
                Err(string_of(&m))
            },
        },
        None => {
            proof {
                crate::rat::lemma_gcd_zero_one();
                reveal_with_fuel(crate::rat::gcd, 3);
            }
            Ok(Rat { num: 1, den: 1 })
        },
    }
}

fn total_duration(score: &Score, grid: Rat) -> (r: Rat)
    requires
        comparable(*score),
        grid_ok(grid),
    ensures
        r == total_spec(*score, grid),
        r.wf(),
        0 <= r.num <= 0x0400_0000_0000_0000,
{
    let ghost cv = cells_view(*score);
    let mut steps: usize = 0;
    let mut c: usize = 0;
    while c < score.cells.len()
        invariant
            c <= score.cells@.len(),
            cv == cells_view(*score),
            comparable(*score),
            steps == longest(cv, c as int),
            steps <= MAX_CELL_STEPS,
        decreases score.cells.len() - c,
    {
        proof {
            assert(cv[c as int] == score.cells@[c as int]@);
            assert(score.cells@[c as int]@.len() <= MAX_CELL_STEPS);
        }
        if score.cells[c].len() > steps {
            steps = score.cells[c].len();
        }
        c = c + 1;
    }
    proof {
        assert(steps * grid.num <= 0x0400_0000_0000_0000) by (nonlinear_arith)
            requires steps <= 0x0100_0000_0000_0000, grid.num <= 4, grid.num >= 1;
        assert(steps * grid.num >= 0) by (nonlinear_arith) requires grid.num >= 1;
        crate::rat::lemma_reduce_props(steps * grid.num, grid.den as int);
    }
    Rat::new(steps as i64 * grid.num, grid.den)
}

fn measure_count(score: &Score, total: Rat) -> (r: Option<u64>)
    requires
        comparable(*score),
        total.den > 0,
    ensures
        r == measures_spec(*score, total),
{
    match score.time_signature {
        None => None,
        Some(t) => {
            let measure = Rat::new(t.beats_per_measure as i64 * 4, t.beat_unit as i64);
            match total.div_exact(measure) {
                Some(n) => Some(n as u64),
                None => None,
            }
        },
    }
}

fn format_quarters(value: Rat) -> (r: String)
    ensures
        r@ == quarters_text(value),
{
    let mut t = decimal_text(value.num);
    if value.den != 1 {
        push_str(&mut t, "/");
        let d = decimal_text(value.den);
        push_chars(&mut t, &d);
    }
    string_of(&t)
}

/// Compares `candidate` against `reference` at the note level (see
/// [`counts_ok`]). Fails only when a score names a rhythm grid that is not
/// one; a score without a grid is on one quarter note per step.
pub fn compare_scores(candidate: &Score, reference: &Score) -> (r: Result<CompareCounts, String>)
    requires
        comparable(*candidate),
        comparable(*reference),
    ensures
        match (grid_spec(*candidate), grid_spec(*reference)) {
            (None, _) => r matches Err(e) && e@ == grid_error("candidate"@, candidate.rhythm_grid->Some_0@),
            (Some(_), None) => r matches Err(e) && e@ == grid_error("reference"@, reference.rhythm_grid->Some_0@),
            (Some(cg), Some(rg)) => r matches Ok(c) && counts_ok(*candidate, *reference, cg, rg, c),
        },
{
    let cg = score_grid(candidate, "candidate")?;
    let rg = score_grid(reference, "reference")?;
    let candidate_events = flatten(candidate, cg);
    let reference_events = flatten(reference, rg);
    let table = build_table(&reference_events);
    let m = match_candidates(table, &candidate_events);
    let rl = leftover_keys(&m.table);
    let step = cg.max(rg);
    proof {
        lemma_tsize_nonneg(tview(m.table@), m.table@.len() as int);
    }
    let (octave_errors, timing_near_misses) = classify(&rl, &m.leftover, step);
    let ct = total_duration(candidate, cg);
    let rt = total_duration(reference, rg);
    let total_duration_match = ct.num == rt.num && ct.den == rt.den;
    let cn = candidate_events.len();
    let rn = reference_events.len();
    let exact = m.matched == cn && m.matched == rn && m.duration_matches == m.matched && total_duration_match;
    Ok(CompareCounts {
        matched: m.matched,
        candidate_only: cn - m.matched,
        reference_only: rn - m.matched,
        candidate_notes: cn,
        reference_notes: rn,
        duration_matches: m.duration_matches,
        octave_errors,
        timing_near_misses,
        candidate_duration_quarters: format_quarters(ct),
        reference_duration_quarters: format_quarters(rt),
        total_duration_match,
        candidate_measures: measure_count(candidate, ct),
        reference_measures: measure_count(reference, rt),
        exact,
    })
}

} // verus!

verus! {

// ---------------------------------------------------------------------------
// Comparing a score with itself

/// Two notes sound alike: the same onset and duration values, the same
/// pitch.
pub open spec fn same_note(a: ScoreNote, b: ScoreNote) -> bool {
    a.onset.same_value(b.onset) && a.pitch == b.pitch && a.duration.same_value(b.duration)
}

/// Onset and duration have positive denominators.
pub open spec fn dens_ok(n: ScoreNote) -> bool {
    n.onset.den > 0 && n.duration.den > 0
}

/// How many of the notes sound like `n`.
pub open spec fn cnt_notes(l: Seq<ScoreNote>, n: ScoreNote) -> nat
    decreases l.len(),
{
    if l.len() == 0 {
        0
    } else {
        cnt_notes(l.drop_last(), n) + if same_note(l.last(), n) { 1nat } else { 0nat }
    }
}

/// How many of the durations equal `d` in value.
pub open spec fn cnt_durs(ds: Seq<Rat>, d: Rat) -> nat
    decreases ds.len(),
{
    if ds.len() == 0 {
        0
    } else {
        cnt_durs(ds.drop_last(), d) + if ds.last().same_value(d) { 1nat } else { 0nat }
    }
}

pub open spec fn key_matches(e: (Rat, i64, Seq<Rat>), n: ScoreNote) -> bool {
    e.0.same_value(n.onset) && e.1 == n.pitch
}

pub open spec fn entry_count(e: (Rat, i64, Seq<Rat>), n: ScoreNote) -> nat {
    if key_matches(e, n) { cnt_durs(e.2, n.duration) } else { 0 }
}

/// How many unmatched reference notes in the first `k` entries sound like
/// `n`.
pub open spec fn cnt_table(t: Seq<(Rat, i64, Seq<Rat>)>, n: ScoreNote, k: int) -> nat
    decreases k,
{
    if k <= 0 || k > t.len() {
        0
    } else {
        cnt_table(t, n, k - 1) + entry_count(t[k - 1], n)
    }
}

pub open spec fn table_dens(t: Seq<(Rat, i64, Seq<Rat>)>) -> bool {
    forall|i: int| 0 <= i < t.len() ==> (#[trigger] t[i]).0.den > 0
        && forall|j: int| 0 <= j < t[i].2.len() ==> (#[trigger] t[i].2[j]).den > 0
}

/// No two entries have keys of equal value.
pub open spec fn keys_unique(t: Seq<(Rat, i64, Seq<Rat>)>) -> bool {
    forall|i: int, j: int| 0 <= i < j < t.len() ==> !((#[trigger] t[i]).0.same_value((#[trigger] t[j]).0) && t[i].1 == t[j].1)
}

proof fn lemma_same_trans(a: Rat, b: Rat, c: Rat)
    requires
        b.den > 0,
        a.same_value(b),
        b.same_value(c),
    ensures
        a.same_value(c),
{
    let (an, ad, bn, bd, cn, cd) = (a.num as int, a.den as int, b.num as int, b.den as int, c.num as int, c.den as int);
    assert(bd * (an * cd) == bd * (cn * ad)) by (nonlinear_arith)
        requires an * bd == bn * ad, bn * cd == cn * bd;
    assert(an * cd == cn * ad) by (nonlinear_arith)
        requires bd * (an * cd) == bd * (cn * ad), bd > 0;
}

proof fn lemma_cnt_durs_update(s: Seq<Rat>, j: int, x: Rat, d: Rat)
    requires
        0 <= j < s.len(),
    ensures
        cnt_durs(s.update(j, x), d) + (if s[j].same_value(d) { 1nat } else { 0nat })
            == cnt_durs(s, d) + (if x.same_value(d) { 1nat } else { 0nat }),
    decreases s.len(),
{
    let u = s.update(j, x);
    if j == s.len() - 1 {
        assert(u.drop_last() =~= s.drop_last());
    } else {
        lemma_cnt_durs_update(s.drop_last(), j, x, d);
        assert(u.drop_last() =~= s.drop_last().update(j, x));
    }
}

proof fn lemma_cnt_durs_swap_remove(ds: Seq<Rat>, j: int, d: Rat)
    requires
        0 <= j < ds.len(),
    ensures
        cnt_durs(ds.update(j, ds.last()).drop_last(), d) + (if ds[j].same_value(d) { 1nat } else { 0nat }) == cnt_durs(ds, d),
{
    let l = ds.len() as int;
    if j == l - 1 {
        assert(ds.update(j, ds.last()).drop_last() =~= ds.drop_last());
    } else {
        let front = ds.drop_last();
        assert(ds.update(j, ds.last()).drop_last() =~= front.update(j, ds.last()));
        lemma_cnt_durs_update(front, j, ds.last(), d);
    }
}

proof fn lemma_cnt_durs_found(ds: Seq<Rat>, d: Rat)
    requires
        cnt_durs(ds, d) > 0,
    ensures
        exists|j: int| 0 <= j < ds.len() && ds[j].same_value(d),
    decreases ds.len(),
{
    if !ds.last().same_value(d) {
        lemma_cnt_durs_found(ds.drop_last(), d);
        let j = choose|j: int| 0 <= j < ds.drop_last().len() && ds.drop_last()[j].same_value(d);
        assert(ds[j] == ds.drop_last()[j]);
    }
}

proof fn lemma_first_same(ds: Seq<Rat>, d: Rat, k: int)
    requires
        0 <= k,
    ensures
        first_same(ds, d, k) matches Some(j) ==> k <= j < ds.len() && ds[j].same_value(d),
        (exists|j: int| k <= j < ds.len() && ds[j].same_value(d)) ==> first_same(ds, d, k) is Some,
    decreases ds.len() - k,
{
    if k < ds.len() && !ds[k].same_value(d) {
        lemma_first_same(ds, d, k + 1);
        if exists|j: int| k <= j < ds.len() && ds[j].same_value(d) {
            let j = choose|j: int| k <= j < ds.len() && ds[j].same_value(d);
            assert(j != k);
        }
    }
}

proof fn lemma_tfind(t: Seq<(Rat, i64, Seq<Rat>)>, n: ScoreNote, k: int)
    requires
        0 <= k,
    ensures
        tfind(t, n.onset, n.pitch as int, k) matches Some(i) ==> k <= i < t.len() && key_matches(t[i], n),
        tfind(t, n.onset, n.pitch as int, k) is None ==> forall|i: int| k <= i < t.len() ==> !key_matches(#[trigger] t[i], n),
    decreases t.len() - k,
{
    if k < t.len() && !key_matches(t[k], n) {
        lemma_tfind(t, n, k + 1);
    }
}

proof fn lemma_cnt_table_update(t: Seq<(Rat, i64, Seq<Rat>)>, i: int, e: (Rat, i64, Seq<Rat>), n: ScoreNote, k: int)
    requires
        0 <= i < t.len(),
        0 <= k <= t.len(),
    ensures
        cnt_table(t.update(i, e), n, k) + (if i < k { entry_count(t[i], n) } else { 0 })
            == cnt_table(t, n, k) + (if i < k { entry_count(e, n) } else { 0 }),
    decreases k,
{
    if k > 0 {
        lemma_cnt_table_update(t, i, e, n, k - 1);
    }
}

proof fn lemma_cnt_table_insert(t: Seq<(Rat, i64, Seq<Rat>)>, pos: int, e: (Rat, i64, Seq<Rat>), n: ScoreNote, k: int)
    requires
        0 <= pos <= t.len(),
        0 <= k <= t.len(),
    ensures
        k <= pos ==> cnt_table(t.insert(pos, e), n, k) == cnt_table(t, n, k),
        k >= pos ==> cnt_table(t.insert(pos, e), n, k + 1) == cnt_table(t, n, k) + entry_count(e, n),
    decreases k,
{
    let s = t.insert(pos, e);
    if k > 0 {
        lemma_cnt_table_insert(t, pos, e, n, k - 1);
        if k - 1 < pos {
            assert(s[k - 1] == t[k - 1]);
        } else {
            assert(s[k] == t[k - 1]);
        }
    }
    if k >= pos {
        assert(s[k] == (if k == pos { e } else { t[k - 1] }));
        assert(cnt_table(s, n, k + 1) == cnt_table(s, n, k) + entry_count(s[k], n));
        if k == pos {
            assert(cnt_table(s, n, k) == cnt_table(t, n, k));
        } else {
            assert(cnt_table(s, n, k) == cnt_table(t, n, k - 1) + entry_count(e, n));
            assert(cnt_table(t, n, k) == cnt_table(t, n, k - 1) + entry_count(t[k - 1], n));
        }
    }
}

proof fn lemma_cnt_table_found(t: Seq<(Rat, i64, Seq<Rat>)>, n: ScoreNote, k: int)
    requires
        0 <= k <= t.len(),
        cnt_table(t, n, k) > 0,
    ensures
        exists|i: int| 0 <= i < k && key_matches(#[trigger] t[i], n) && cnt_durs(t[i].2, n.duration) > 0,
    decreases k,
{
    if entry_count(t[k - 1], n) == 0 {
        lemma_cnt_table_found(t, n, k - 1);
        let i = choose|i: int| 0 <= i < k - 1 && key_matches(#[trigger] t[i], n) && cnt_durs(t[i].2, n.duration) > 0;
        assert(key_matches(t[i], n));
    } else {
        assert(key_matches(t[k - 1], n));
    }
}

proof fn lemma_cnt_notes_step(e: Seq<ScoreNote>, k: int, m: ScoreNote)
    requires
        0 <= k < e.len(),
    ensures
        cnt_notes(e.take(k + 1), m) == cnt_notes(e.take(k), m) + if same_note(e[k], m) { 1nat } else { 0nat },
{
    assert(e.take(k + 1).drop_last() =~= e.take(k));
}

proof fn lemma_cnt_notes_grows(e: Seq<ScoreNote>, a: int, b: int, m: ScoreNote)
    requires
        0 <= a <= b <= e.len(),
    ensures
        cnt_notes(e.take(a), m) <= cnt_notes(e.take(b), m),
    decreases b - a,
{
    if a < b {
        lemma_cnt_notes_step(e, b - 1, m);
        lemma_cnt_notes_grows(e, a, b - 1, m);
    }
}

/// The reference table of the first `k` notes: entries keyed by distinct
/// values, and for every note as many unmatched durations that sound like
/// it as there are such notes.
proof fn lemma_ref_table_counts(e: Seq<ScoreNote>, k: int)
    requires
        0 <= k <= e.len(),
        forall|i: int| 0 <= i < e.len() ==> dens_ok(#[trigger] e[i]),
    ensures
        table_dens(ref_table(e, k)),
        keys_unique(ref_table(e, k)),
        forall|m: ScoreNote| #[trigger] cnt_table(ref_table(e, k), m, ref_table(e, k).len() as int) == cnt_notes(e.take(k), m),
    decreases k,
{
    if k == 0 {
        assert forall|m: ScoreNote| #[trigger] cnt_table(ref_table(e, k), m, ref_table(e, k).len() as int) == cnt_notes(e.take(k), m) by {
            assert(e.take(0).len() == 0);
        }
    } else {
        lemma_ref_table_counts(e, k - 1);
        let t = ref_table(e, k - 1);
        let n = e[k - 1];
        assert(dens_ok(n));
        lemma_tfind(t, n, 0);
        let t2 = ref_table(e, k);
        assert(t2 == tinsert(t, n));
        match tfind(t, n.onset, n.pitch as int, 0) {
            Some(i) => {
                let ne = (t[i].0, t[i].1, t[i].2.push(n.duration));
                assert(t2 == t.update(i, ne));
                assert(ne.2.drop_last() =~= t[i].2);
                assert(table_dens(t2)) by {
                    assert forall|a: int| 0 <= a < t2.len() implies (#[trigger] t2[a]).0.den > 0
                        && forall|j: int| 0 <= j < t2[a].2.len() ==> (#[trigger] t2[a].2[j]).den > 0 by {
                        if a == i {
                            assert forall|j: int| 0 <= j < t2[a].2.len() implies (#[trigger] t2[a].2[j]).den > 0 by {
                                if j < t[i].2.len() {
                                    assert(t2[a].2[j] == t[i].2[j]);
                                }
                            }
                        }
                    }
                }
                assert(keys_unique(t2)) by {
                    assert forall|a: int, b: int| 0 <= a < b < t2.len()
                        implies !((#[trigger] t2[a]).0.same_value((#[trigger] t2[b]).0) && t2[a].1 == t2[b].1) by {
                        assert(t2[a].0 == t[a].0 && t2[a].1 == t[a].1);
                        assert(t2[b].0 == t[b].0 && t2[b].1 == t[b].1);
                    }
                }
                assert forall|m: ScoreNote| #[trigger] cnt_table(t2, m, t2.len() as int) == cnt_notes(e.take(k), m) by {
                    lemma_cnt_table_update(t, i, ne, m, t.len() as int);
                    lemma_cnt_notes_step(e, k - 1, m);
                    if key_matches(t[i], m) {
                        if n.duration.same_value(m.duration) {
                            assert(n.onset.same_value(m.onset)) by {
                                lemma_same_trans(n.onset, t[i].0, m.onset);
                            }
                        }
                    } else if same_note(n, m) {
                        lemma_same_trans(t[i].0, n.onset, m.onset);
                    }
                }
            },
            None => {
                lemma_tpos_bounds(t, n.onset, n.pitch as int, 0);
                let pos = tpos(t, n.onset, n.pitch as int, 0);
                let ne = (n.onset, n.pitch, seq![n.duration]);
                assert(t2 == t.insert(pos, ne));
                assert(ne.2.drop_last() =~= Seq::<Rat>::empty());
                assert(table_dens(t2)) by {
                    assert forall|a: int| 0 <= a < t2.len() implies (#[trigger] t2[a]).0.den > 0
                        && forall|j: int| 0 <= j < t2[a].2.len() ==> (#[trigger] t2[a].2[j]).den > 0 by {
                        if a < pos {
                            assert(t2[a] == t[a]);
                        } else if a > pos {
                            assert(t2[a] == t[a - 1]);
                        }
                    }
                }
                assert(keys_unique(t2)) by {
                    assert forall|a: int, b: int| 0 <= a < b < t2.len()
                        implies !((#[trigger] t2[a]).0.same_value((#[trigger] t2[b]).0) && t2[a].1 == t2[b].1) by {
                        if a < pos && b < pos {
                            assert(t2[a] == t[a] && t2[b] == t[b]);
                        } else if a < pos && b == pos {
                            assert(t2[a] == t[a]);
                            assert(!key_matches(t[a], n));
                        } else if a < pos {
                            assert(t2[a] == t[a] && t2[b] == t[b - 1]);
                        } else if a == pos {
                            assert(t2[b] == t[b - 1]);
                            assert(!key_matches(t[b - 1], n));
                        } else {
                            assert(t2[a] == t[a - 1] && t2[b] == t[b - 1]);
                        }
                    }
                }
                assert forall|m: ScoreNote| #[trigger] cnt_table(t2, m, t2.len() as int) == cnt_notes(e.take(k), m) by {
                    lemma_cnt_table_insert(t, pos, ne, m, t.len() as int);
                    lemma_cnt_notes_step(e, k - 1, m);
                    assert(cnt_durs(ne.2.drop_last(), m.duration) == 0);
                    assert(cnt_durs(ne.2, m.duration) == if n.duration.same_value(m.duration) { 1nat } else { 0nat });
                    assert(t2.len() == t.len() + 1);
                }
            },
        }
    }
}

/// Matching the first `k` candidate notes against the table of reference
/// notes that sound alike, as many of each: every candidate is matched,
/// each with an equal duration, one reference duration used up per match.
proof fn lemma_match_alike(c: Seq<ScoreNote>, r: Seq<ScoreNote>, k: int)
    requires
        0 <= k <= c.len(),
        forall|i: int| 0 <= i < c.len() ==> dens_ok(#[trigger] c[i]),
        forall|i: int| 0 <= i < r.len() ==> dens_ok(#[trigger] r[i]),
        forall|m: ScoreNote| #[trigger] cnt_notes(c, m) == cnt_notes(r, m),
    ensures
        ({
            let t0 = ref_table(r, r.len() as int);
            let st = match_fold(t0, c, k);
            &&& st.matched == k
            &&& st.duration_matches == k
            &&& st.table.len() == t0.len()
            &&& tsize(st.table, st.table.len() as int) + k == r.len()
            &&& table_dens(st.table)
            &&& keys_unique(st.table)
            &&& forall|m: ScoreNote| #[trigger] cnt_table(st.table, m, st.table.len() as int) + cnt_notes(c.take(k), m)
                == cnt_notes(r, m)
        }),
    decreases k,
{
    let t0 = ref_table(r, r.len() as int);
    lemma_ref_table_counts(r, r.len() as int);
    lemma_ref_table_size(r, r.len() as int);
    assert(r.take(r.len() as int) =~= r);
    assert(c.take(c.len() as int) =~= c);
    if k == 0 {
        assert forall|m: ScoreNote| #[trigger] cnt_table(t0, m, t0.len() as int) + cnt_notes(c.take(0), m) == cnt_notes(r, m) by {
            assert(c.take(0).len() == 0);
        }
    } else {
        lemma_match_alike(c, r, k - 1);
        let st = match_fold(t0, c, k - 1);
        let t = st.table;
        let n = c[k - 1];
        assert(dens_ok(n));
        assert(same_note(n, n));
        lemma_cnt_notes_step(c, k - 1, n);
        lemma_cnt_notes_grows(c, k, c.len() as int, n);
        assert(cnt_notes(c, n) == cnt_notes(r, n));
        assert(cnt_table(t, n, t.len() as int) > 0);
        lemma_cnt_table_found(t, n, t.len() as int);
        let i2 = choose|i: int| 0 <= i < t.len() && key_matches(#[trigger] t[i], n) && cnt_durs(t[i].2, n.duration) > 0;
        lemma_tfind(t, n, 0);
        let i = tfind(t, n.onset, n.pitch as int, 0)->Some_0;
        assert(i == i2) by {
            if i != i2 {
                assert(t[i].0.same_value(t[i2].0)) by {
                    lemma_same_trans(t[i].0, n.onset, t[i2].0);
                }
                assert(t[i2].0.same_value(t[i].0));
            }
        }
        let ds = t[i].2;
        lemma_cnt_durs_found(ds, n.duration);
        lemma_first_same(ds, n.duration, 0);
        let j = first_same(ds, n.duration, 0)->Some_0;
        let nds = ds.update(j, ds.last()).drop_last();
        let ne = (t[i].0, t[i].1, nds);
        let st2 = match_fold(t0, c, k);
        assert(st2 == match_step(st, n));
        assert(st2.table == t.update(i, ne));
        let t2 = st2.table;
        lemma_tsize_update(t, i, ne, t.len() as int);
        assert(table_dens(t2)) by {
            assert forall|a: int| 0 <= a < t2.len() implies (#[trigger] t2[a]).0.den > 0
                && forall|x: int| 0 <= x < t2[a].2.len() ==> (#[trigger] t2[a].2[x]).den > 0 by {
                if a == i {
                    assert forall|x: int| 0 <= x < t2[a].2.len() implies (#[trigger] t2[a].2[x]).den > 0 by {
                        assert(t2[a].2[x] == ds.update(j, ds.last())[x]);
                        if x == j {
                            assert(t[i].2[ds.len() - 1].den > 0);
                        } else {
                            assert(t[i].2[x].den > 0);
                        }
                    }
                }
            }
        }
        assert(keys_unique(t2)) by {
            assert forall|a: int, b: int| 0 <= a < b < t2.len()
                implies !((#[trigger] t2[a]).0.same_value((#[trigger] t2[b]).0) && t2[a].1 == t2[b].1) by {
                assert(t2[a].0 == t[a].0 && t2[a].1 == t[a].1);
                assert(t2[b].0 == t[b].0 && t2[b].1 == t[b].1);
            }
        }
        assert forall|m: ScoreNote| #[trigger] cnt_table(t2, m, t2.len() as int) + cnt_notes(c.take(k), m) == cnt_notes(r, m) by {
            lemma_cnt_table_update(t, i, ne, m, t.len() as int);
            lemma_cnt_notes_step(c, k - 1, m);
            lemma_cnt_durs_swap_remove(ds, j, m.duration);
            assert(t[i].2[j].den > 0);
            if key_matches(t[i], m) && ds[j].same_value(m.duration) {
                lemma_same_trans(n.onset, t[i].0, m.onset);
                lemma_same_trans(n.duration, ds[j], m.duration);
            }
            if same_note(n, m) {
                lemma_same_trans(t[i].0, n.onset, m.onset);
                lemma_same_trans(ds[j], n.duration, m.duration);
            }
        }
    }
}

/// The reference table of the first `k` notes holds `k` durations.
proof fn lemma_ref_table_size(e: Seq<ScoreNote>, k: int)
    requires
        0 <= k <= e.len(),
    ensures
        tsize(ref_table(e, k), ref_table(e, k).len() as int) == k,
    decreases k,
{
    if k > 0 {
        lemma_ref_table_size(e, k - 1);
        let t = ref_table(e, k - 1);
        let n = e[k - 1];
        lemma_tfind(t, n, 0);
        match tfind(t, n.onset, n.pitch as int, 0) {
            Some(i) => {
                lemma_tsize_update(t, i, (t[i].0, t[i].1, t[i].2.push(n.duration)), t.len() as int);
            },
            None => {
                lemma_tpos_bounds(t, n.onset, n.pitch as int, 0);
                let pos = tpos(t, n.onset, n.pitch as int, 0);
                lemma_tsize_insert(t, pos, (n.onset, n.pitch, seq![n.duration]), t.len() as int);
            },
        }
    }
}

proof fn lemma_cnt_durs_has(ds: Seq<Rat>, d: Rat, j: int)
    requires
        0 <= j < ds.len(),
        ds[j].same_value(d),
    ensures
        cnt_durs(ds, d) > 0,
    decreases ds.len(),
{
    if j < ds.len() - 1 {
        lemma_cnt_durs_has(ds.drop_last(), d, j);
    }
}

proof fn lemma_cnt_table_has(t: Seq<(Rat, i64, Seq<Rat>)>, n: ScoreNote, i: int, k: int)
    requires
        0 <= i < k <= t.len(),
    ensures
        cnt_table(t, n, k) >= entry_count(t[i], n),
    decreases k,
{
    if i < k - 1 {
        lemma_cnt_table_has(t, n, i, k - 1);
    }
}

/// A table in which no note has an unmatched duration holds no duration.
proof fn lemma_no_count_empty(t: Seq<(Rat, i64, Seq<Rat>)>, k: int)
    requires
        0 <= k <= t.len(),
        forall|m: ScoreNote| #[trigger] cnt_table(t, m, t.len() as int) == 0,
    ensures
        tsize(t, k) == 0,
    decreases k,
{
    if k > 0 {
        lemma_no_count_empty(t, k - 1);
        if t[k - 1].2.len() > 0 {
            let e = t[k - 1];
            let m = ScoreNote { onset: e.0, duration: e.2[0], pitch: e.1 };
            lemma_cnt_durs_has(e.2, m.duration, 0);
            lemma_cnt_table_has(t, m, k - 1, t.len() as int);
            assert(cnt_table(t, m, t.len() as int) == 0);
        }
    }
}

/// Matching candidate notes against reference notes that sound alike, as
/// many of each, matches every note on both sides, each with an equal
/// duration; in particular a list matched against itself.
pub proof fn lemma_alike_notes_match_fully(c: Seq<ScoreNote>, r: Seq<ScoreNote>)
    requires
        forall|i: int| 0 <= i < c.len() ==> dens_ok(#[trigger] c[i]),
        forall|i: int| 0 <= i < r.len() ==> dens_ok(#[trigger] r[i]),
        forall|m: ScoreNote| #[trigger] cnt_notes(c, m) == cnt_notes(r, m),
    ensures
        match_fold(ref_table(r, r.len() as int), c, c.len() as int).matched == c.len(),
        match_fold(ref_table(r, r.len() as int), c, c.len() as int).duration_matches == c.len(),
        c.len() == r.len(),
{
    lemma_match_alike(c, r, c.len() as int);
    let st = match_fold(ref_table(r, r.len() as int), c, c.len() as int);
    assert(c.take(c.len() as int) =~= c);
    assert forall|m: ScoreNote| #[trigger] cnt_table(st.table, m, st.table.len() as int) == 0 by {
        assert(cnt_table(st.table, m, st.table.len() as int) + cnt_notes(c.take(c.len() as int), m) == cnt_notes(r, m));
    }
    lemma_no_count_empty(st.table, st.table.len() as int);
}

proof fn lemma_cell_fold_dens(steps: Seq<Step>, base: int, g: Rat, i: int)
    requires
        g.den > 0,
    ensures
        forall|k: int| 0 <= k < cell_fold(steps, base, g, i).2.len() ==> dens_ok(#[trigger] cell_fold(steps, base, g, i).2[k]),
    decreases i,
{
    if i > 0 && i <= steps.len() {
        lemma_cell_fold_dens(steps, base, g, i - 1);
        let (cur, end, ev) = cell_fold(steps, base, g, i - 1);
        if let Some((s, p)) = cur {
            crate::rat::lemma_reduce_props(s * g.num, g.den as int);
            crate::rat::lemma_reduce_props((end - s) * g.num, g.den as int);
            assert(dens_ok(note_at(s, end, p, g)));
        }
    }
}

proof fn lemma_flatten_dens(cells: Seq<Seq<Step>>, base: int, g: Rat, k: int)
    requires
        g.den > 0,
    ensures
        forall|i: int| 0 <= i < flatten_spec(cells, base, g, k).len() ==> dens_ok(#[trigger] flatten_spec(cells, base, g, k)[i]),
    decreases k,
{
    if k > 0 && k <= cells.len() {
        lemma_flatten_dens(cells, base, g, k - 1);
        let steps = cells[k - 1];
        lemma_cell_fold_dens(steps, base, g, steps.len() as int);
        let (cur, end, ev) = cell_fold(steps, base, g, steps.len() as int);
        if let Some((s, p)) = cur {
            crate::rat::lemma_reduce_props(s * g.num, g.den as int);
            crate::rat::lemma_reduce_props((end - s) * g.num, g.den as int);
            assert(dens_ok(note_at(s, end, p, g)));
        }
        let a = flatten_spec(cells, base, g, k - 1);
        let b = cell_notes(steps, base, g);
        assert forall|i: int| 0 <= i < (a + b).len() implies dens_ok(#[trigger] (a + b)[i]) by {
            if i >= a.len() {
                assert((a + b)[i] == b[i - a.len()]);
            }
        }
    }
}

proof fn lemma_grid_den(s: Score)
    requires
        grid_spec(s) is Some,
    ensures
        grid_spec(s)->Some_0.den > 0,
{
    if let Some(name) = s.rhythm_grid {
        let d = crate::names::unit_divisor(name@)->Some_0;
        assert(1 <= d <= 128);
        crate::rat::lemma_reduce_props(4, d);
    }
}

/// Comparing a score with itself is exact: every note is matched with an
/// equal duration, none is left on either side, and the lengths agree.
pub proof fn lemma_self_comparison_is_exact(s: Score, r: CompareCounts)
    requires
        grid_spec(s) is Some,
        counts_ok(s, s, grid_spec(s)->Some_0, grid_spec(s)->Some_0, r),
    ensures
        r.exact,
        r.matched == r.candidate_notes,
        r.candidate_only == 0,
        r.reference_only == 0,
        r.duration_matches == r.matched,
        r.total_duration_match,
{
    let g = grid_spec(s)->Some_0;
    lemma_grid_den(s);
    let e = flatten_spec(cells_view(s), base_of(s), g, s.cells@.len() as int);
    lemma_flatten_dens(cells_view(s), base_of(s), g, s.cells@.len() as int);
    lemma_alike_notes_match_fully(e, e);
}

/// The notes a score sounds, on its own grid.
pub open spec fn notes_of(s: Score) -> Seq<ScoreNote> {
    flatten_spec(cells_view(s), base_of(s), grid_spec(s)->Some_0, s.cells@.len() as int)
}

/// Scores that sound alike (as many notes at each onset value, pitch and
/// duration value, however they are split into cells and lanes and
/// whatever grid they are written on) match note for note: nothing is
/// left on either side, every matched duration agrees, and the comparison
/// is exact exactly when their total lengths agree.
pub proof fn lemma_alike_scores_match_fully(candidate: Score, reference: Score, r: CompareCounts)
    requires
        grid_spec(candidate) is Some,
        grid_spec(reference) is Some,
        counts_ok(candidate, reference, grid_spec(candidate)->Some_0, grid_spec(reference)->Some_0, r),
        forall|m: ScoreNote| #[trigger] cnt_notes(notes_of(candidate), m) == cnt_notes(notes_of(reference), m),
    ensures
        r.matched == r.candidate_notes,
        r.matched == r.reference_notes,
        r.candidate_only == 0,
        r.reference_only == 0,
        r.duration_matches == r.matched,
        r.exact == r.total_duration_match,
{
    let cg = grid_spec(candidate)->Some_0;
    let rg = grid_spec(reference)->Some_0;
    lemma_grid_den(candidate);
    lemma_grid_den(reference);
    lemma_flatten_dens(cells_view(candidate), base_of(candidate), cg, candidate.cells@.len() as int);
    lemma_flatten_dens(cells_view(reference), base_of(reference), rg, reference.cells@.len() as int);
    lemma_alike_notes_match_fully(notes_of(candidate), notes_of(reference));
}

} // verus!
