//! Note events on exact rational time: tie merging, lane splitting and
//! rendering onto the step grid.

use vstd::prelude::*;
use vstd::multiset::Multiset;
use crate::rat::Rat;
use crate::score::Step;
use crate::sorting::{Ranked, stable_sort, stable_sorted};
use crate::topology::rows_view;

verus! {

/// Base MIDI note all step offsets are relative to (middle C).
pub const BASE_NOTE: i64 = 60;

/// A sounding note with an exact onset and duration in quarter notes.
#[derive(Clone, Copy, Debug, PartialEq, Eq, Structural)]
pub struct NoteEvent {
    pub onset: Rat,
    pub duration: Rat,
    pub midi: i64,
    pub tie_start: bool,
    pub tie_stop: bool,
}

impl NoteEvent {
    /// Times are well-formed rationals and the pitch is a MIDI note.
    pub open spec fn wf(self) -> bool {
        &&& self.onset.wf()
        &&& self.duration.wf()
        &&& 0 <= self.midi <= 127
    }
}

/// All events are well formed.
pub open spec fn events_wf(s: Seq<NoteEvent>) -> bool {
    forall|i: int| 0 <= i < s.len() ==> (#[trigger] s[i]).wf()
}

impl Ranked for NoteEvent {
    /// Earlier onsets first; at equal onsets the higher pitch first.
    open spec fn before(self, other: NoteEvent) -> bool {
        ||| self.onset.lt_value(other.onset)
        ||| (self.onset.same_value(other.onset) && self.midi > other.midi)
    }

    fn is_before(&self, other: &NoteEvent) -> (b: bool) {
        let lhs = product(self.onset.num, other.onset.den);
        let rhs = product(other.onset.num, self.onset.den);
        lhs < rhs || (lhs == rhs && self.midi > other.midi)
    }
}

/// `a * b`, widened so it cannot overflow.
fn product(a: i64, b: i64) -> (r: i128)
    ensures
        r == a * b,
{
    proof {
        assert(-0x4000_0000_0000_0000_0000_0000_0000_0000 <= a * b <= 0x4000_0000_0000_0000_0000_0000_0000_0000)
            by (nonlinear_arith)
            requires
                i64::MIN <= a <= i64::MAX,
                i64::MIN <= b <= i64::MAX;
    }
    (a as i128) * (b as i128)
}

proof fn lemma_sorted_wf(s: Seq<NoteEvent>)
    requires
        events_wf(s),
    ensures
        events_wf(stable_sorted(s)),
        stable_sorted(s).len() == s.len(),
    decreases s.len(),
{
    if s.len() > 0 {
        let d = s.drop_last();
        assert(events_wf(d)) by {
            assert forall|i: int| 0 <= i < d.len() implies (#[trigger] d[i]).wf() by {
                assert(d[i] == s[i]);
            }
        }
        lemma_sorted_wf(d);
        lemma_insert_wf(stable_sorted(d), s.last());
    }
}

proof fn lemma_insert_wf(s: Seq<NoteEvent>, e: NoteEvent)
    requires
        events_wf(s),
        e.wf(),
    ensures
        events_wf(crate::sorting::insert_sorted(s, e)),
        crate::sorting::insert_sorted(s, e).len() == s.len() + 1,
    decreases s.len(),
{
    if s.len() > 0 && e.before(s.last()) {
        let d = s.drop_last();
        assert(events_wf(d)) by {
            assert forall|i: int| 0 <= i < d.len() implies (#[trigger] d[i]).wf() by {
                assert(d[i] == s[i]);
            }
        }
        lemma_insert_wf(d, e);
    }
}

/// Sorts events by onset, higher pitch first at equal onsets (stable).
pub fn sort_events(events: &Vec<NoteEvent>) -> (r: Vec<NoteEvent>)
    requires
        events_wf(events@),
    ensures
        r@ == stable_sorted(events@),
        events_wf(r@),
        r@.len() == events@.len(),
{
    proof {
        lemma_sorted_wf(events@);
    }
    stable_sort(events)
}

// ---------------------------------------------------------------------------
// Tie merging

/// State of tie merging: merged events, the open tie chain per pitch (an
/// index into the merged events), ties merged so far, and the pitches of tie
/// stops that matched nothing.
pub open spec fn tie_step(
    st: (Seq<NoteEvent>, Seq<Option<usize>>, nat, Seq<i64>),
    e: NoteEvent,
) -> Option<(Seq<NoteEvent>, Seq<Option<usize>>, nat, Seq<i64>)> {
    let (merged, open, ties, unmatched) = st;
    let slot = open[e.midi as int];
    let joined = e.tie_stop && slot is Some && slot->0 < merged.len();
    if joined {
        let idx = slot->0 as int;
        let prev = merged[idx];
        match prev.onset.plus(prev.duration) {
            None => None,
            Some(end) => if end == e.onset {
                match prev.duration.plus(e.duration) {
                    None => None,
                    Some(d) => Some((
                        merged.update(idx, NoteEvent { duration: d, ..prev }),
                        if e.tie_start { open } else { open.update(e.midi as int, None) },
                        ties + 1,
                        unmatched,
                    )),
                }
            } else {
                tie_append(merged, open, ties, unmatched.push(e.midi), e)
            },
        }
    } else if e.tie_stop {
        tie_append(merged, open, ties, unmatched.push(e.midi), e)
    } else {
        tie_append(merged, open, ties, unmatched, e)
    }
}

/// Keeps `e` as a new onset, opening a tie chain when it starts one.
pub open spec fn tie_append(
    merged: Seq<NoteEvent>,
    open: Seq<Option<usize>>,
    ties: nat,
    unmatched: Seq<i64>,
    e: NoteEvent,
) -> Option<(Seq<NoteEvent>, Seq<Option<usize>>, nat, Seq<i64>)> {
    Some((
        merged.push(e),
        if e.tie_start { open.update(e.midi as int, Some(merged.len() as usize)) } else { open },
        ties,
        unmatched,
    ))
}

/// Tie merging over the first `k` events; `None` when a time overflows.
pub open spec fn tie_fold(events: Seq<NoteEvent>, k: nat) -> Option<(Seq<NoteEvent>, Seq<Option<usize>>, nat, Seq<i64>)>
    decreases k,
{
    if k == 0 {
        Some((Seq::empty(), Seq::new(128, |i: int| None::<usize>), 0, Seq::empty()))
    } else {
        match tie_fold(events, (k - 1) as nat) {
            None => None,
            Some(st) => tie_step(st, events[k - 1]),
        }
    }
}

/// Merging the tie chains of a voice: the events in sorted order, each tie
/// stop joined to the open chain of its pitch that ends exactly where it
/// begins. The result is the merged events, the number of ties merged and the
/// pitches of tie stops that matched no chain; `None` when a time overflows.
pub open spec fn merge_ties_spec(events: Seq<NoteEvent>) -> Option<(Seq<NoteEvent>, nat, Seq<i64>)> {
    let sorted = stable_sorted(events);
    match tie_fold(sorted, sorted.len()) {
        None => None,
        Some(st) => Some((st.0, st.2, st.3)),
    }
}

pub open spec fn open_wf(open: Seq<Option<usize>>, merged_len: nat) -> bool {
    &&& open.len() == 128
    &&& forall|m: int| 0 <= m < 128 && (#[trigger] open[m]) is Some ==> open[m]->0 < merged_len
}

proof fn lemma_tie_fold_shape(events: Seq<NoteEvent>, k: nat)
    requires
        k <= events.len(),
        events_wf(events),
    ensures
        tie_fold(events, k) matches Some(st) ==> open_wf(st.1, st.0.len()) && events_wf(st.0)
            && st.0.len() <= k,
    decreases k,
{
    if k > 0 {
        lemma_tie_fold_shape(events, (k - 1) as nat);
        assert(events[k - 1].wf());
        match tie_fold(events, (k - 1) as nat) {
            None => {},
            Some(st) => {
                let e = events[k - 1];
                let slot = st.1[e.midi as int];
                if slot is Some && slot->0 < st.0.len() {
                    let prev = st.0[slot->0 as int];
                    assert(prev.wf());
                    crate::rat::lemma_ops_wf(prev.onset, prev.duration);
                    crate::rat::lemma_ops_wf(prev.duration, e.duration);
                }
                if let Some(nst) = tie_step(st, e) {
                    assert(open_wf(nst.1, nst.0.len()));
                    assert(events_wf(nst.0)) by {
                        assert forall|i: int| 0 <= i < nst.0.len() implies (#[trigger] nst.0[i]).wf() by {
                            if i < st.0.len() {
                                assert(st.0[i].wf());
                            }
                        }
                    }
                }
            },
        }
    } else {
        let st = tie_fold(events, 0)->Some_0;
        assert(open_wf(st.1, 0));
    }
}

proof fn lemma_tie_fold_none(events: Seq<NoteEvent>, k: nat, j: nat)
    requires
        k <= j,
        tie_fold(events, k) is None,
    ensures
        tie_fold(events, j) is None,
    decreases j - k,
{
    if k < j {
        lemma_tie_fold_none(events, k, (j - 1) as nat);
    }
}

fn push_event_into(merged: &mut Vec<NoteEvent>, e: NoteEvent)
    ensures
        final(merged)@ == old(merged)@.push(e),
{
    merged.push(e);
}

/// Merges tie chains into single long events (see [`merge_ties_spec`]).
pub fn merge_ties(events: &Vec<NoteEvent>) -> (r: Option<(Vec<NoteEvent>, usize, Vec<i64>)>)
    requires
        events_wf(events@),
    ensures
        match merge_ties_spec(events@) {
            None => r is None,
            Some(m) => r matches Some(x) && x.0@ == m.0 && x.1 == m.1 && x.2@ == m.2,
        },
        r matches Some(x) ==> events_wf(x.0@),
{
    let sorted = sort_events(events);
    let n = sorted.len();
    let mut merged: Vec<NoteEvent> = Vec::new();
    let mut open: Vec<Option<usize>> = Vec::new();
    let mut m: usize = 0;
    while m < 128
        invariant
            m <= 128,
            open@ == Seq::new(m as nat, |i: int| None::<usize>),
        decreases 128 - m,
    {
        open.push(None);
        m = m + 1;
        proof {
            assert(open@ =~= Seq::new(m as nat, |i: int| None::<usize>));
        }
    }
    let mut ties: usize = 0;
    let mut unmatched: Vec<i64> = Vec::new();
    let mut k: usize = 0;
    proof {
        lemma_tie_fold_shape(sorted@, 0);
    }
    while k < n
        invariant
            n == sorted@.len(),
            sorted@ == stable_sorted(events@),
            events_wf(sorted@),
            k <= n,
            tie_fold(sorted@, k as nat) == Some((merged@, open@, ties as nat, unmatched@)),
            open_wf(open@, merged@.len()),
            events_wf(merged@),
            merged@.len() <= k,
            ties <= k,
        decreases n - k,
    {
        let e = sorted[k];
        proof {
            assert(e.wf());
            lemma_tie_fold_shape(sorted@, (k + 1) as nat);
            assert(tie_fold(sorted@, (k + 1) as nat) == tie_step((merged@, open@, ties as nat, unmatched@), e));
        }
        let slot = open[e.midi as usize];
        let mut kept = true;
        if e.tie_stop {
            if let Some(idx) = slot {
                let prev = merged[idx];
                proof {
                    assert(prev.wf());
                }
                let end = match prev.onset.add(prev.duration) {
                    Some(end) => end,
                    None => {
                        proof {
                            lemma_tie_fold_none(sorted@, (k + 1) as nat, n as nat);
                        }
                        return None;
                    },
                };
                if end == e.onset {
                    let d = match prev.duration.add(e.duration) {
                        Some(d) => d,
                        None => {
                            proof {
                                lemma_tie_fold_none(sorted@, (k + 1) as nat, n as nat);
                            }
                            return None;
                        },
                    };
                    merged.set(idx, NoteEvent { duration: d, ..prev });
                    ties = ties + 1;
                    if !e.tie_start {
                        open.set(e.midi as usize, None);
                    }
                    kept = false;
                }
            }
            if kept {
                unmatched.push(e.midi);
            }
        }
        if kept {
            let idx = merged.len();
            push_event_into(&mut merged, e);
            if e.tie_start {
                open.set(e.midi as usize, Some(idx));
            }
        }
        k = k + 1;
    }
    Some((merged, ties, unmatched))
}

// ---------------------------------------------------------------------------
// Lane splitting

/// First lane, from `k` on, that is free at `onset` (ends no later).
pub open spec fn first_free(ends: Seq<Rat>, onset: Rat, k: int) -> Option<int>
    decreases ends.len() - k,
{
    if k < 0 || k >= ends.len() {
        None
    } else if ends[k].le_value(onset) {
        Some(k)
    } else {
        first_free(ends, onset, k + 1)
    }
}

/// Places one event in the lowest-numbered free lane, or a new lane.
pub open spec fn lane_step(st: (Seq<Seq<NoteEvent>>, Seq<Rat>), e: NoteEvent) -> Option<(Seq<Seq<NoteEvent>>, Seq<Rat>)> {
    match e.onset.plus(e.duration) {
        None => None,
        Some(end) => match first_free(st.1, e.onset, 0) {
            Some(l) => Some((st.0.update(l, st.0[l].push(e)), st.1.update(l, end))),
            None => Some((st.0.push(seq![e]), st.1.push(end))),
        },
    }
}

pub open spec fn lane_fold(events: Seq<NoteEvent>, k: nat) -> Option<(Seq<Seq<NoteEvent>>, Seq<Rat>)>
    decreases k,
{
    if k == 0 {
        Some((Seq::empty(), Seq::empty()))
    } else {
        match lane_fold(events, (k - 1) as nat) {
            None => None,
            Some(st) => lane_step(st, events[k - 1]),
        }
    }
}

/// All events of the lanes, as a multiset.
pub open spec fn lanes_multiset(lanes: Seq<Seq<NoteEvent>>) -> Multiset<NoteEvent>
    decreases lanes.len(),
{
    if lanes.len() == 0 {
        Multiset::empty()
    } else {
        lanes_multiset(lanes.drop_last()).add(lanes.last().to_multiset())
    }
}

/// Each event of the lane ends no later than the next one starts.
pub open spec fn lane_disjoint(lane: Seq<NoteEvent>) -> bool {
    forall|i: int| 0 <= i < lane.len() - 1 ==> ((#[trigger] lane[i]).onset.plus(lane[i].duration)
        matches Some(end) && end.le_value(lane[i + 1].onset))
}

/// What the lane fold keeps: no lane is empty, each lane's end is its last
/// event's end, and events within a lane do not overlap.
pub open spec fn lanes_inv(st: (Seq<Seq<NoteEvent>>, Seq<Rat>)) -> bool {
    &&& st.0.len() == st.1.len()
    &&& forall|l: int| 0 <= l < st.0.len() ==> (#[trigger] st.0[l]).len() > 0
        && st.0[l].last().onset.plus(st.0[l].last().duration) == Some(st.1[l])
        && lane_disjoint(st.0[l])
}

proof fn lemma_lanes_multiset_push(lanes: Seq<Seq<NoteEvent>>, x: Seq<NoteEvent>)
    ensures
        lanes_multiset(lanes.push(x)) =~= lanes_multiset(lanes).add(x.to_multiset()),
{
    assert(lanes.push(x).drop_last() =~= lanes);
}

proof fn lemma_lanes_multiset_update(lanes: Seq<Seq<NoteEvent>>, l: int, e: NoteEvent)
    requires
        0 <= l < lanes.len(),
    ensures
        lanes_multiset(lanes.update(l, lanes[l].push(e))) =~= lanes_multiset(lanes).insert(e),
    decreases lanes.len(),
{
    broadcast use vstd::seq_lib::group_to_multiset_ensures;
    let u = lanes.update(l, lanes[l].push(e));
    if l == lanes.len() - 1 {
        assert(u.drop_last() =~= lanes.drop_last());
        assert(u.last().to_multiset() =~= lanes.last().to_multiset().insert(e));
    } else {
        lemma_lanes_multiset_update(lanes.drop_last(), l, e);
        assert(u.drop_last() =~= lanes.drop_last().update(l, lanes[l].push(e)));
        assert(u.last() == lanes.last());
    }
}

proof fn lemma_lane_fold_partition(events: Seq<NoteEvent>, k: nat)
    requires
        k <= events.len(),
    ensures
        lane_fold(events, k) matches Some(st) ==> lanes_inv(st)
            && lanes_multiset(st.0) =~= events.take(k as int).to_multiset(),
    decreases k,
{
    broadcast use vstd::seq_lib::group_to_multiset_ensures;
    if k > 0 {
        lemma_lane_fold_partition(events, (k - 1) as nat);
        assert(events.take(k as int) =~= events.take(k - 1).push(events[k - 1]));
        match lane_fold(events, (k - 1) as nat) {
            None => {},
            Some(st) => {
                let e = events[k - 1];
                match e.onset.plus(e.duration) {
                    None => {},
                    Some(end) => {
                        lemma_first_free(st.1, e.onset, 0);
                        match first_free(st.1, e.onset, 0) {
                            Some(l) => {
                                lemma_lanes_multiset_update(st.0, l, e);
                                let nl = st.0.update(l, st.0[l].push(e));
                                let ne = st.1.update(l, end);
                                assert forall|m: int| 0 <= m < nl.len() implies (#[trigger] nl[m]).len() > 0
                                    && nl[m].last().onset.plus(nl[m].last().duration) == Some(ne[m])
                                    && lane_disjoint(nl[m]) by {
                                    if m == l {
                                        let old = st.0[l];
                                        assert(nl[m] == old.push(e));
                                        assert forall|i: int| 0 <= i < nl[m].len() - 1 implies ((#[trigger] nl[m][i]).onset.plus(nl[m][i].duration)
                                            matches Some(x) && x.le_value(nl[m][i + 1].onset)) by {
                                            if i < old.len() - 1 {
                                                assert(nl[m][i] == old[i] && nl[m][i + 1] == old[i + 1]);
                                                assert(lane_disjoint(old));
                                            } else {
                                                assert(nl[m][i] == old.last());
                                                assert(nl[m][i + 1] == e);
                                            }
                                        }
                                    }
                                }
                            },
                            None => {
                                lemma_lanes_multiset_push(st.0, seq![e]);
                                assert(seq![e].to_multiset() =~= Multiset::empty().insert(e));
                                let nl = st.0.push(seq![e]);
                                assert forall|m: int| 0 <= m < nl.len() implies (#[trigger] nl[m]).len() > 0
                                    && nl[m].last().onset.plus(nl[m].last().duration) == Some(st.1.push(end)[m])
                                    && lane_disjoint(nl[m]) by {
                                    if m < st.0.len() {
                                        assert(nl[m] == st.0[m]);
                                    } else {
                                        assert(nl[m] == seq![e]);
                                    }
                                }
                            },
                        }
                    },
                }
            },
        }
    }
}

/// The lanes of a voice partition its events, and within a lane no event
/// overlaps the next: each ends no later than the next one starts.
pub proof fn lemma_lanes_partition_without_overlap(events: Seq<NoteEvent>)
    requires
        events_wf(events),
        assign_lanes_spec(events) is Some,
    ensures
        lanes_multiset(assign_lanes_spec(events)->Some_0) =~= events.to_multiset(),
        forall|l: int| 0 <= l < assign_lanes_spec(events)->Some_0.len()
            ==> lane_disjoint(#[trigger] assign_lanes_spec(events)->Some_0[l])
                && assign_lanes_spec(events)->Some_0[l].len() > 0,
{
    let sorted = stable_sorted(events);
    crate::sorting::lemma_stable_sorted_permutation(events);
    lemma_lane_fold_partition(sorted, sorted.len());
    assert(sorted.take(sorted.len() as int) =~= sorted);
}

/// Onsets never decrease along `s`.
pub open spec fn onset_sorted(s: Seq<NoteEvent>) -> bool {
    forall|i: int, j: int| 0 <= i < j < s.len() ==> (#[trigger] s[i]).onset.le_value((#[trigger] s[j]).onset)
}

proof fn lemma_le_value_trans(a: Rat, b: Rat, c: Rat)
    requires
        a.den > 0,
        b.den > 0,
        c.den > 0,
        a.le_value(b),
        b.le_value(c),
    ensures
        a.le_value(c),
{
    let (an, ad, bn, bd, cn, cd) = (a.num as int, a.den as int, b.num as int, b.den as int, c.num as int, c.den as int);
    assert(an * bd <= bn * ad);
    assert(bn * cd <= cn * bd);
    assert(an * bd * cd <= bn * ad * cd) by (nonlinear_arith)
        requires an * bd <= bn * ad, cd > 0;
    assert(bn * cd * ad <= cn * bd * ad) by (nonlinear_arith)
        requires bn * cd <= cn * bd, ad > 0;
    assert(an * cd * bd <= cn * ad * bd) by (nonlinear_arith)
        requires an * bd * cd <= bn * ad * cd, bn * cd * ad <= cn * bd * ad;
    assert(an * cd <= cn * ad) by (nonlinear_arith)
        requires an * cd * bd <= cn * ad * bd, bd > 0;
}

/// Sorting well-formed events leaves their onsets in order.
proof fn lemma_sorted_onsets(s: Seq<NoteEvent>)
    requires
        events_wf(s),
    ensures
        onset_sorted(stable_sorted(s)),
        events_wf(stable_sorted(s)),
    decreases s.len(),
{
    if s.len() > 0 {
        let d = s.drop_last();
        let e = s.last();
        lemma_sorted_onsets(d);
        let t = stable_sorted(d);
        let p = crate::sorting::lemma_insert_sorted_at(t, e);
        let r = t.insert(p, e);
        assert(stable_sorted(s) == r);
        assert forall|i: int| 0 <= i < r.len() implies (#[trigger] r[i]).wf() by {
            if i < p {
                assert(r[i] == t[i]);
            } else if i > p {
                assert(r[i] == t[i - 1]);
            }
        }
        assert forall|i: int, j: int| 0 <= i < j < r.len() implies (#[trigger] r[i]).onset.le_value((#[trigger] r[j]).onset) by {
            if j < p {
                assert(r[i] == t[i] && r[j] == t[j]);
            } else if i > p {
                assert(r[i] == t[i - 1] && r[j] == t[j - 1]);
            } else if i == p {
                assert(e.before(t[j - 1]));
                assert(r[j] == t[j - 1]);
            } else if j == p {
                assert(r[i] == t[i]);
                assert(!e.before(t[p - 1]));
                if i < p - 1 {
                    lemma_le_value_trans(t[i].onset, t[p - 1].onset, e.onset);
                }
            } else {
                assert(r[i] == t[i] && r[j] == t[j - 1]);
            }
        }
    }
}

/// Event `x` sounds at time `t`: it has begun and not yet ended.
pub open spec fn sounding(x: NoteEvent, t: Rat) -> bool {
    &&& x.onset.le_value(t)
    &&& x.onset.plus(x.duration) matches Some(end) && t.lt_value(end)
}

/// Some event of the lane sounds at time `t`.
pub open spec fn busy_at(lane: Seq<NoteEvent>, t: Rat) -> bool {
    exists|i: int| 0 <= i < lane.len() && #[trigger] sounding(lane[i], t)
}

/// When the first event of the last lane starts, every other lane has an
/// event still sounding.
pub open spec fn lanes_needed(lanes: Seq<Seq<NoteEvent>>) -> bool {
    lanes.len() > 0 ==> forall|l: int| 0 <= l < lanes.len() - 1 ==> busy_at(#[trigger] lanes[l], lanes.last()[0].onset)
}

proof fn lemma_lane_fold_needed(events: Seq<NoteEvent>, k: nat)
    requires
        k <= events.len(),
        events_wf(events),
        onset_sorted(events),
    ensures
        lane_fold(events, k) matches Some(st) ==> lanes_needed(st.0)
            && forall|l: int, i: int| 0 <= l < st.0.len() && 0 <= i < st.0[l].len() ==>
                exists|q: int| 0 <= q < k && events[q] == #[trigger] st.0[l][i],
    decreases k,
{
    if k > 0 {
        lemma_lane_fold_needed(events, (k - 1) as nat);
        lemma_lane_fold_partition(events, (k - 1) as nat);
        match lane_fold(events, (k - 1) as nat) {
            None => {},
            Some(st) => {
                let e = events[k - 1];
                match e.onset.plus(e.duration) {
                    None => {},
                    Some(end) => {
                        lemma_first_free(st.1, e.onset, 0);
                        match first_free(st.1, e.onset, 0) {
                            Some(l) => {
                                let nl = st.0.update(l, st.0[l].push(e));
                                assert forall|m: int, i: int| 0 <= m < nl.len() && 0 <= i < nl[m].len() implies
                                    exists|q: int| 0 <= q < k && events[q] == #[trigger] nl[m][i] by {
                                    if m == l && i == st.0[l].len() {
                                        assert(events[k - 1] == nl[m][i]);
                                    } else {
                                        assert(nl[m][i] == st.0[m][i]);
                                    }
                                }
                                if st.0.len() > 0 {
                                    assert(nl.last()[0] == st.0.last()[0]);
                                    assert forall|m: int| 0 <= m < nl.len() - 1 implies busy_at(#[trigger] nl[m], nl.last()[0].onset) by {
                                        assert(busy_at(st.0[m], st.0.last()[0].onset));
                                        let i = choose|i: int| 0 <= i < st.0[m].len() && #[trigger] sounding(st.0[m][i], st.0.last()[0].onset);
                                        assert(nl[m][i] == st.0[m][i]);
                                    }
                                }
                            },
                            None => {
                                let nl = st.0.push(seq![e]);
                                assert forall|m: int, i: int| 0 <= m < nl.len() && 0 <= i < nl[m].len() implies
                                    exists|q: int| 0 <= q < k && events[q] == #[trigger] nl[m][i] by {
                                    if m == st.0.len() {
                                        assert(events[k - 1] == nl[m][i]);
                                    } else {
                                        assert(nl[m][i] == st.0[m][i]);
                                    }
                                }
                                assert(nl.last()[0] == e);
                                assert forall|m: int| 0 <= m < nl.len() - 1 implies busy_at(#[trigger] nl[m], nl.last()[0].onset) by {
                                    let lane = st.0[m];
                                    assert(nl[m] == lane);
                                    let i = lane.len() - 1;
                                    let x = lane[i];
                                    let q = choose|q: int| 0 <= q < k - 1 && events[q] == #[trigger] st.0[m][i];
                                    assert(events[q].onset.le_value(events[k - 1].onset));
                                    assert(!st.1[m].le_value(e.onset));
                                    assert(x.onset.plus(x.duration) == Some(st.1[m]));
                                    assert(sounding(lane[i], e.onset));
                                }
                            },
                        }
                    },
                }
            },
        }
    }
}

/// As few lanes as possible: when a voice takes several lanes, the first
/// event of the last lane starts while an event of every other lane is
/// still sounding.
pub proof fn lemma_lanes_are_needed(events: Seq<NoteEvent>)
    requires
        events_wf(events),
        assign_lanes_spec(events) is Some,
    ensures
        lanes_needed(assign_lanes_spec(events)->Some_0),
{
    let sorted = stable_sorted(events);
    crate::sorting::lemma_stable_sorted_permutation(events);
    lemma_sorted_onsets(events);
    lemma_lane_fold_needed(sorted, sorted.len());
}

/// Greedy interval colouring of a voice: events in sorted order each claim
/// the lowest-numbered lane that is free at their onset; `None` when an end
/// time overflows.
pub open spec fn assign_lanes_spec(events: Seq<NoteEvent>) -> Option<Seq<Seq<NoteEvent>>> {
    let sorted = stable_sorted(events);
    match lane_fold(sorted, sorted.len()) {
        None => None,
        Some(st) => Some(st.0),
    }
}

proof fn lemma_first_free(ends: Seq<Rat>, onset: Rat, k: int)
    requires
        0 <= k,
    ensures
        first_free(ends, onset, k) matches Some(l) ==> k <= l < ends.len() && ends[l].le_value(onset)
            && forall|j: int| k <= j < l ==> !(#[trigger] ends[j]).le_value(onset),
        first_free(ends, onset, k) is None ==> forall|j: int| k <= j < ends.len() ==> !(#[trigger] ends[j]).le_value(onset),
    decreases ends.len() - k,
{
    if k < ends.len() && !ends[k].le_value(onset) {
        lemma_first_free(ends, onset, k + 1);
    }
}

proof fn lemma_lane_fold_shape(events: Seq<NoteEvent>, k: nat)
    requires
        k <= events.len(),
        events_wf(events),
    ensures
        lane_fold(events, k) matches Some(st) ==> st.0.len() == st.1.len() && st.0.len() <= k
            && forall|l: int| 0 <= l < st.1.len() ==> (#[trigger] st.1[l]).wf(),
    decreases k,
{
    if k > 0 {
        lemma_lane_fold_shape(events, (k - 1) as nat);
        match lane_fold(events, (k - 1) as nat) {
            None => {},
            Some(st) => {
                let e = events[k - 1];
                assert(e.wf());
                lemma_first_free(st.1, e.onset, 0);
                crate::rat::lemma_ops_wf(e.onset, e.duration);
            },
        }
    }
}

proof fn lemma_lane_fold_none(events: Seq<NoteEvent>, k: nat, j: nat)
    requires
        k <= j,
        lane_fold(events, k) is None,
    ensures
        lane_fold(events, j) is None,
    decreases j - k,
{
    if k < j {
        lemma_lane_fold_none(events, k, (j - 1) as nat);
    }
}

/// Appends `x` to row `i`.
pub fn push_to_row<T>(rows: &mut Vec<Vec<T>>, i: usize, x: T)
    requires
        i < old(rows)@.len(),
    ensures
        rows_view(final(rows)@) == rows_view(old(rows)@).update(i as int, old(rows)@[i as int]@.push(x)),
        final(rows)@.len() == old(rows)@.len(),
{
    let mut row = rows.remove(i);
    row.push(x);
    rows.insert(i, row);
    proof {
        assert(rows_view(rows@) =~= rows_view(old(rows)@).update(i as int, old(rows)@[i as int]@.push(x)));
    }
}

fn lane_of(e: NoteEvent) -> (r: Vec<NoteEvent>)
    ensures
        r@ == seq![e],
{
    let mut r: Vec<NoteEvent> = Vec::new();
    r.push(e);
    r
}

/// Splits a voice's events into monophonic lanes (see [`assign_lanes_spec`]).
pub fn assign_lanes(events: &Vec<NoteEvent>) -> (r: Option<Vec<Vec<NoteEvent>>>)
    requires
        events_wf(events@),
    ensures
        match assign_lanes_spec(events@) {
            None => r is None,
            Some(lanes) => r matches Some(x) && rows_view(x@) == lanes,
        },
        r matches Some(x) ==> forall|l: int, i: int| 0 <= l < x@.len() && 0 <= i < x@[l]@.len()
            ==> (#[trigger] x@[l]@[i]).wf(),
{
    let sorted = sort_events(events);
    let n = sorted.len();
    let mut lanes: Vec<Vec<NoteEvent>> = Vec::new();
    let mut ends: Vec<Rat> = Vec::new();
    let mut k: usize = 0;
    proof {
        assert(rows_view(lanes@) =~= Seq::<Seq<NoteEvent>>::empty());
    }
    while k < n
        invariant
            n == sorted@.len(),
            sorted@ == stable_sorted(events@),
            events_wf(sorted@),
            k <= n,
            lane_fold(sorted@, k as nat) == Some((rows_view(lanes@), ends@)),
            lanes@.len() == ends@.len(),
            forall|l: int| 0 <= l < ends@.len() ==> (#[trigger] ends@[l]).wf(),
            forall|l: int, i: int| 0 <= l < lanes@.len() && 0 <= i < lanes@[l]@.len()
                ==> (#[trigger] lanes@[l]@[i]).wf(),
        decreases n - k,
    {
        let e = sorted[k];
        proof {
            assert(e.wf());
            lemma_lane_fold_shape(sorted@, (k + 1) as nat);
            lemma_first_free(ends@, e.onset, 0);
            assert(lane_fold(sorted@, (k + 1) as nat) == lane_step((rows_view(lanes@), ends@), e));
        }
        let end = match e.onset.add(e.duration) {
            Some(end) => end,
            None => {
                proof {
                    lemma_lane_fold_none(sorted@, (k + 1) as nat, n as nat);
                }
                return None;
            },
        };
        let mut l: usize = 0;
        while l < ends.len() && !ends[l].le(e.onset)
            invariant
                l <= ends@.len(),
                e.wf(),
                forall|j: int| 0 <= j < ends@.len() ==> (#[trigger] ends@[j]).wf(),
                forall|j: int| 0 <= j < l ==> !(#[trigger] ends@[j]).le_value(e.onset),
            decreases ends.len() - l,
        {
            l = l + 1;
        }
        if l < ends.len() {
            proof {
                assert(first_free(ends@, e.onset, 0) == Some(l as int));
            }
            let ghost prev = lanes@;
            push_to_row(&mut lanes, l, e);
            ends.set(l, end);
            proof {
                assert forall|a: int, i: int| 0 <= a < lanes@.len() && 0 <= i < lanes@[a]@.len()
                    implies (#[trigger] lanes@[a]@[i]).wf() by {
                    assert(rows_view(lanes@)[a] == lanes@[a]@);
                    assert(rows_view(prev)[a] == prev[a]@);
                    if a != l || i < prev[a]@.len() {
                        assert(lanes@[a]@[i] == prev[a]@[i]);
                    }
                }
            }
        } else {
            proof {
                assert(first_free(ends@, e.onset, 0) is None);
            }
            let lane = lane_of(e);
            let ghost prev = lanes@;
            lanes.push(lane);
            ends.push(end);
            proof {
                assert(rows_view(lanes@) =~= rows_view(prev).push(seq![e]));
                assert forall|a: int, i: int| 0 <= a < lanes@.len() && 0 <= i < lanes@[a]@.len()
                    implies (#[trigger] lanes@[a]@[i]).wf() by {
                    if a < prev.len() {
                        assert(lanes@[a] == prev[a]);
                    }
                }
                crate::rat::lemma_ops_wf(e.onset, e.duration);
            }
        }
        k = k + 1;
    }
    Some(lanes)
}

// ---------------------------------------------------------------------------
// Rendering onto the step grid

/// Why a lane could not be rendered onto the grid.
#[derive(Clone, Copy, Debug, PartialEq, Eq, Structural)]
pub enum LaneError {
    OnsetOffGrid,
    DurationOffGrid,
    ExceedsPiece,
}

/// `a / grid` as an exact non-negative integer that fits `i64`.
pub open spec fn steps_of(a: Rat, grid: Rat) -> Option<int> {
    match a.spec_div_exact(grid) {
        Some(k) => if k <= i64::MAX { Some(k) } else { None },
        None => None,
    }
}

/// `steps` with a note struck at `start` and held for `len` steps in all.
pub open spec fn paint(steps: Seq<Step>, start: int, len: int, note: i8) -> Seq<Step> {
    Seq::new(steps.len(), |i: int|
        if i == start {
            Step { note: Some(note), held: false }
        } else if start < i < start + len {
            Step { note: None, held: true }
        } else {
            steps[i]
        })
}

/// Renders events `k..` of a lane over `steps`.
pub open spec fn emit_from(events: Seq<NoteEvent>, grid: Rat, total: nat, k: int, steps: Seq<Step>) -> Result<Seq<Step>, LaneError>
    decreases events.len() - k,
{
    if k < 0 || k >= events.len() {
        Ok(steps)
    } else {
        let e = events[k];
        match steps_of(e.onset, grid) {
            None => Err(LaneError::OnsetOffGrid),
            Some(start) => match steps_of(e.duration, grid) {
                None => Err(LaneError::DurationOffGrid),
                Some(len) => if len == 0 || start + len > total {
                    Err(LaneError::ExceedsPiece)
                } else {
                    emit_from(events, grid, total, k + 1, paint(steps, start, len, (e.midi - BASE_NOTE) as i8))
                },
            },
        }
    }
}

/// A lane on the grid: `total` rests, then each event in order struck at its
/// onset step and held for its duration.
pub open spec fn emit_lane_spec(events: Seq<NoteEvent>, grid: Rat, total: nat) -> Result<Seq<Step>, LaneError> {
    emit_from(events, grid, total, 0, Seq::new(total, |i: int| Step { note: None, held: false }))
}

/// Renders one lane's events onto the step grid (see [`emit_lane_spec`]).
pub fn emit_lane(events: &Vec<NoteEvent>, grid: Rat, total: usize) -> (r: Result<Vec<Step>, LaneError>)
    requires
        events_wf(events@),
        grid.wf(),
    ensures
        match emit_lane_spec(events@, grid, total as nat) {
            Ok(s) => r matches Ok(v) && v@ == s,
            Err(e) => r == Err::<Vec<Step>, LaneError>(e),
        },
{
    let mut steps: Vec<Step> = Vec::new();
    let mut i: usize = 0;
    while i < total
        invariant
            i <= total,
            steps@ == Seq::new(i as nat, |j: int| Step { note: None, held: false }),
        decreases total - i,
    {
        steps.push(Step::rest());
        i = i + 1;
        proof {
            assert(steps@ =~= Seq::new(i as nat, |j: int| Step { note: None, held: false }));
        }
    }
    let mut k: usize = 0;
    while k < events.len()
        invariant
            k <= events@.len(),
            events_wf(events@),
            grid.wf(),
            steps@.len() == total,
            emit_lane_spec(events@, grid, total as nat) == emit_from(events@, grid, total as nat, k as int, steps@),
        decreases events.len() - k,
    {
        let e = events[k];
        proof {
            assert(e.wf());
        }
        let start = match e.onset.div_exact(grid) {
            Some(s) => s,
            None => { return Err(LaneError::OnsetOffGrid); },
        };
        let len = match e.duration.div_exact(grid) {
            Some(s) => s,
            None => { return Err(LaneError::DurationOffGrid); },
        };
        proof {
            assert(start >= 0) by {
                crate::rat::lemma_div_exact_meaning(e.onset, grid);
            }
            assert(len >= 0) by {
                crate::rat::lemma_div_exact_meaning(e.duration, grid);
            }
        }
        if len == 0 || (start as u128) + (len as u128) > total as u128 {
            return Err(LaneError::ExceedsPiece);
        }
        let s = start as usize;
        let end = s + len as usize;
        let offset = (e.midi - BASE_NOTE) as i8;
        let ghost before = steps@;
        steps.set(s, Step::note(offset));
        let mut j: usize = s + 1;
        while j < end
            invariant
                s < j,
                s + 1 <= j <= end || (j == s + 1 && end <= s + 1),
                end <= total,
                steps@.len() == total,
                before.len() == total,
                forall|i: int| 0 <= i < total ==> steps@[i] == (if i == s {
                    Step { note: Some(offset), held: false }
                } else if s < i < j {
                    Step { note: None, held: true }
                } else {
                    before[i]
                }),
            decreases end - j,
        {
            steps.set(j, Step::held());
            j = j + 1;
        }
        proof {
            assert(steps@ =~= paint(before, start as int, len as int, offset));
        }
        k = k + 1;
    }
    Ok(steps)
}

} // verus!
