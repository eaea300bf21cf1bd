//! Positioned marks on the step grid: the tempo map and sustain-pedal lanes.

use vstd::prelude::*;
use crate::events::{paint, steps_of};
use crate::rat::Rat;
use crate::score::{Step, TempoPoint};
use crate::sorting::{Ranked, is_ranked, lemma_stable_sorted_ranked, stable_sort, stable_sorted, weak_order};

verus! {

// ---------------------------------------------------------------------------
// Tempo map

/// A tempo mark placed on the step grid.
#[derive(Clone, Copy, Debug, PartialEq, Eq, Structural)]
pub struct PlacedTempo {
    pub at_step: u64,
    pub bpm: Rat,
}

impl Ranked for PlacedTempo {
    open spec fn before(self, other: PlacedTempo) -> bool {
        self.at_step < other.at_step
    }

    fn is_before(&self, other: &PlacedTempo) -> (b: bool) {
        self.at_step < other.at_step
    }
}

/// Tempo marks `(onset, bpm)` placed on the grid, in document order; `None`
/// when a mark is not on the grid.
pub open spec fn place_tempo(marks: Seq<(Rat, Rat)>, grid: Rat) -> Option<Seq<PlacedTempo>>
    decreases marks.len(),
{
    if marks.len() == 0 {
        Some(Seq::empty())
    } else {
        match place_tempo(marks.drop_last(), grid) {
            None => None,
            Some(p) => match steps_of(marks.last().0, grid) {
                None => None,
                Some(k) => Some(p.push(PlacedTempo { at_step: k as u64, bpm: marks.last().1 })),
            },
        }
    }
}

/// Adds a placed mark to the map: a mark at the last entry's step replaces
/// its tempo, a mark restating the last tempo is dropped.
pub open spec fn tempo_step(map: Seq<TempoPoint>, m: PlacedTempo) -> Seq<TempoPoint> {
    if map.len() > 0 && map.last().at_step == m.at_step {
        map.update(map.len() - 1, TempoPoint { bpm: m.bpm, ..map.last() })
    } else if map.len() > 0 && map.last().bpm == m.bpm {
        map
    } else {
        map.push(TempoPoint { at_step: m.at_step, bpm: m.bpm, ramp: None })
    }
}

pub open spec fn tempo_fold(marks: Seq<PlacedTempo>, k: nat) -> Seq<TempoPoint>
    decreases k,
{
    if k == 0 || k > marks.len() {
        Seq::empty()
    } else {
        tempo_step(tempo_fold(marks, (k - 1) as nat), marks[k - 1])
    }
}

/// `(initial tempo, tempo map)` from tempo marks: marks are placed on the
/// grid, ordered by step (stably), and de-duplicated; the map is kept only
/// when it has two or more entries. `None` when a mark is off the grid.
pub open spec fn tempo_map_spec(marks: Seq<(Rat, Rat)>, grid: Rat) -> Option<(Option<Rat>, Seq<TempoPoint>)> {
    match place_tempo(marks, grid) {
        None => None,
        Some(placed) => {
            let sorted = stable_sorted(placed);
            let map = tempo_fold(sorted, sorted.len());
            Some((
                if map.len() > 0 { Some(map[0].bpm) } else { None },
                if map.len() > 1 { map } else { Seq::empty() },
            ))
        },
    }
}

proof fn lemma_tempo_fold_len(marks: Seq<PlacedTempo>, k: nat)
    requires
        k <= marks.len(),
    ensures
        tempo_fold(marks, k).len() <= k,
        k > 0 ==> tempo_fold(marks, k).len() > 0,
    decreases k,
{
    if k > 0 {
        lemma_tempo_fold_len(marks, (k - 1) as nat);
    }
}

/// Turns positioned tempo marks into `(initial tempo, tempo map)` (see
/// [`tempo_map_spec`]).
pub fn build_tempo_map(marks: &Vec<(Rat, Rat)>, grid: Rat) -> (r: Option<(Option<Rat>, Vec<TempoPoint>)>)
    requires
        grid.wf(),
        forall|i: int| 0 <= i < marks@.len() ==> (#[trigger] marks@[i]).0.wf(),
    ensures
        match tempo_map_spec(marks@, grid) {
            None => r is None,
            Some(t) => r matches Some(x) && x.0 == t.0 && x.1@ == t.1,
        },
{
    let mut placed: Vec<PlacedTempo> = Vec::new();
    let mut i: usize = 0;
    proof {
        assert(marks@.take(0) =~= Seq::<(Rat, Rat)>::empty());
    }
    while i < marks.len()
        invariant
            i <= marks@.len(),
            grid.wf(),
            forall|j: int| 0 <= j < marks@.len() ==> (#[trigger] marks@[j]).0.wf(),
            place_tempo(marks@.take(i as int), grid) == Some(placed@),
        decreases marks.len() - i,
    {
        let (onset, bpm) = marks[i];
        proof {
            assert(marks@.take(i + 1).drop_last() =~= marks@.take(i as int));
            assert(marks@[i as int].0.wf());
        }
        let k = match onset.div_exact(grid) {
            Some(k) => k,
            None => {
                proof {
                    lemma_place_none(marks@, grid, (i + 1) as nat);
                }
                return None;
            },
        };
        proof {
            crate::rat::lemma_div_exact_meaning(onset, grid);
        }
        placed.push(PlacedTempo { at_step: k as u64, bpm });
        i = i + 1;
    }
    proof {
        assert(marks@.take(marks@.len() as int) =~= marks@);
    }
    let sorted = stable_sort(&placed);
    let n = sorted.len();
    let mut map: Vec<TempoPoint> = Vec::new();
    let mut k: usize = 0;
    while k < n
        invariant
            n == sorted@.len(),
            k <= n,
            map@ == tempo_fold(sorted@, k as nat),
        decreases n - k,
    {
        let m = sorted[k];
        let len = map.len();
        if len > 0 && map[len - 1].at_step == m.at_step {
            let last = map[len - 1];
            map.set(len - 1, TempoPoint { bpm: m.bpm, ..last });
        } else if len > 0 && map[len - 1].bpm == m.bpm {
        } else {
            map.push(TempoPoint { at_step: m.at_step, bpm: m.bpm, ramp: None });
        }
        k = k + 1;
    }
    let tempo = if map.len() > 0 { Some(map[0].bpm) } else { None };
    if map.len() > 1 {
        Some((tempo, map))
    } else {
        Some((tempo, Vec::new()))
    }
}

proof fn lemma_place_none(marks: Seq<(Rat, Rat)>, grid: Rat, k: nat)
    requires
        k <= marks.len(),
        place_tempo(marks.take(k as int), grid) is None,
    ensures
        place_tempo(marks, grid) is None,
    decreases marks.len() - k,
{
    if k < marks.len() {
        assert(marks.take((k + 1) as int).drop_last() =~= marks.take(k as int));
        lemma_place_none(marks, grid, k + 1);
    } else {
        assert(marks.take(k as int) =~= marks);
    }
}

/// Tempo changes at strictly ascending steps.
pub open spec fn steps_ascending(map: Seq<TempoPoint>) -> bool {
    forall|i: int, j: int| 0 <= i < j < map.len() ==> (#[trigger] map[i]).at_step < (#[trigger] map[j]).at_step
}

proof fn lemma_tempo_fold_ascending(marks: Seq<PlacedTempo>, k: nat)
    requires
        k <= marks.len(),
        is_ranked(marks),
    ensures
        steps_ascending(tempo_fold(marks, k)),
        k > 0 ==> tempo_fold(marks, k).len() > 0 && tempo_fold(marks, k).last().at_step <= marks[k - 1].at_step,
    decreases k,
{
    if k > 0 {
        lemma_tempo_fold_ascending(marks, (k - 1) as nat);
        lemma_tempo_fold_len(marks, (k - 1) as nat);
        let map = tempo_fold(marks, (k - 1) as nat);
        let m = marks[k - 1];
        if k > 1 {
            assert(!marks[k - 1].before(marks[k - 2]));
        }
        let next = tempo_fold(marks, k);
        assert forall|i: int, j: int| 0 <= i < j < next.len() implies (#[trigger] next[i]).at_step < (#[trigger] next[j]).at_step by {
            if j < map.len() {
                assert(map[i].at_step < map[j].at_step);
            } else if map.len() > 0 && i < map.len() - 1 {
                assert(map[i].at_step < map.last().at_step);
            }
        }
    }
}

/// The tempo map built from a score's tempo marks lists its changes at
/// strictly ascending steps, as the score validator requires of a tempo
/// map.
pub proof fn lemma_tempo_map_ascending(marks: Seq<(Rat, Rat)>, grid: Rat)
    ensures
        tempo_map_spec(marks, grid) matches Some(t) ==> steps_ascending(t.1),
{
    if let Some(placed) = place_tempo(marks, grid) {
        assert forall|a: PlacedTempo, b: PlacedTempo, c: PlacedTempo| #![trigger a.before(b), b.before(c)] #![trigger a.before(c), b.before(c)]
            !a.before(b) && !b.before(c) implies !a.before(c) by {}
        assert(weak_order::<PlacedTempo>());
        let sorted = stable_sorted(placed);
        lemma_stable_sorted_ranked(placed);
        lemma_tempo_fold_ascending(sorted, sorted.len());
    }
}

// ---------------------------------------------------------------------------
// Sustain pedal

/// What a `<pedal>` mark does.
#[derive(Clone, Copy, Debug, PartialEq, Eq, Structural)]
pub enum PedalKind {
    Start,
    Stop,
    Change,
}

/// A pedal mark placed on the grid; `mark` is its index in document order.
#[derive(Clone, Copy, Debug, PartialEq, Eq, Structural)]
pub struct PlacedPedal {
    pub step: u64,
    pub kind: PedalKind,
    pub mark: usize,
}

impl Ranked for PlacedPedal {
    open spec fn before(self, other: PlacedPedal) -> bool {
        self.step < other.step
    }

    fn is_before(&self, other: &PlacedPedal) -> (b: bool) {
        self.step < other.step
    }
}

/// Pedal marks `(position, kind)` placed on the grid in document order;
/// `None` when a mark is not on the grid.
pub open spec fn place_pedal(marks: Seq<(Rat, PedalKind)>, grid: Rat) -> Option<Seq<PlacedPedal>>
    decreases marks.len(),
{
    if marks.len() == 0 {
        Some(Seq::empty())
    } else {
        match place_pedal(marks.drop_last(), grid) {
            None => None,
            Some(p) => match steps_of(marks.last().0, grid) {
                None => None,
                Some(k) => Some(p.push(PlacedPedal {
                    step: k as u64,
                    kind: marks.last().1,
                    mark: (marks.len() - 1) as usize,
                })),
            },
        }
    }
}

/// Closes a pedal span `[s, e)`: pedal down struck at `s`, held to `e`.
pub open spec fn close_span(steps: Seq<Step>, s: int, e: int) -> Seq<Step> {
    if s < e && s < steps.len() {
        paint(steps, s, e - s, 0)
    } else {
        steps
    }
}

/// One mark applied to `(lane, open span start, marks of stray stops)`:
/// a start or a change (re)strikes the pedal, a stop releases it.
pub open spec fn pedal_step(st: (Seq<Step>, Option<u64>, Seq<usize>), m: PlacedPedal) -> (Seq<Step>, Option<u64>, Seq<usize>) {
    let (steps, open, stray) = st;
    match m.kind {
        PedalKind::Stop => match open {
            Some(s) => (close_span(steps, s as int, m.step as int), None, stray),
            None => (steps, None, stray.push(m.mark)),
        },
        _ => match open {
            Some(s) => (close_span(steps, s as int, m.step as int), Some(m.step), stray),
            None => (steps, Some(m.step), stray),
        },
    }
}

pub open spec fn pedal_fold(marks: Seq<PlacedPedal>, total: nat, k: nat) -> (Seq<Step>, Option<u64>, Seq<usize>)
    decreases k,
{
    if k == 0 || k > marks.len() {
        (Seq::new(total, |i: int| Step { note: None, held: false }), None, Seq::empty())
    } else {
        pedal_step(pedal_fold(marks, total, (k - 1) as nat), marks[k - 1])
    }
}

/// A part's pedal gate lane of `total` steps and the document indices of
/// stops that had no open pedal: marks in step order (stably), a span left
/// open holding to the end. `None` when a mark is off the grid.
pub open spec fn pedal_lane_spec(marks: Seq<(Rat, PedalKind)>, grid: Rat, total: nat) -> Option<(Seq<Step>, Seq<usize>)> {
    match place_pedal(marks, grid) {
        None => None,
        Some(placed) => {
            let sorted = stable_sorted(placed);
            let st = pedal_fold(sorted, total, sorted.len());
            Some((
                match st.1 {
                    Some(s) => close_span(st.0, s as int, total as int),
                    None => st.0,
                },
                st.2,
            ))
        },
    }
}

proof fn lemma_pedal_fold_len(marks: Seq<PlacedPedal>, total: nat, k: nat)
    ensures
        pedal_fold(marks, total, k).0.len() == total,
    decreases k,
{
    if k > 0 && k <= marks.len() {
        lemma_pedal_fold_len(marks, total, (k - 1) as nat);
    }
}

/// Strikes a span `[s, e)` into `steps` (see [`close_span`]).
fn strike_span(steps: &mut Vec<Step>, s: u64, e: u64)
    ensures
        final(steps)@ == close_span(old(steps)@, s as int, e as int),
{
    let n = steps.len();
    if s < e && (s as u128) < (n as u128) {
        let start = s as usize;
        let ghost before = steps@;
        steps.set(start, Step::note(0));
        let mut j: usize = start + 1;
        while j < n && (j as u64) < e
            invariant
                start < j <= n,
                start == s,
                s < e,
                j <= e || j == start + 1,
                n == steps@.len(),
                before.len() == n,
                forall|i: int| 0 <= i < n ==> steps@[i] == (if i == start {
                    Step { note: Some(0), held: false }
                } else if start < i < j {
                    Step { note: None, held: true }
                } else {
                    before[i]
                }),
            decreases n - j,
        {
            steps.set(j, Step::held());
            j = j + 1;
        }
        proof {
            assert(steps@ =~= paint(before, s as int, e - s, 0));
        }
    }
}

proof fn lemma_place_pedal_none(marks: Seq<(Rat, PedalKind)>, grid: Rat, k: nat)
    requires
        k <= marks.len(),
        place_pedal(marks.take(k as int), grid) is None,
    ensures
        place_pedal(marks, grid) is None,
    decreases marks.len() - k,
{
    if k < marks.len() {
        let t = marks.take((k + 1) as int);
        assert(t.drop_last() =~= marks.take(k as int));
        lemma_place_pedal_none(marks, grid, k + 1);
    } else {
        assert(marks.take(k as int) =~= marks);
    }
}

/// Renders a part's pedal marks as a gate lane (see [`pedal_lane_spec`]).
pub fn pedal_lane(marks: &Vec<(Rat, PedalKind)>, grid: Rat, total: usize) -> (r: Option<(Vec<Step>, Vec<usize>)>)
    requires
        grid.wf(),
        forall|i: int| 0 <= i < marks@.len() ==> (#[trigger] marks@[i]).0.wf(),
    ensures
        match pedal_lane_spec(marks@, grid, total as nat) {
            None => r is None,
            Some(t) => r matches Some(x) && x.0@ == t.0 && x.1@ == t.1,
        },
        r matches Some(x) ==> forall|i: int| 0 <= i < x.1@.len() ==> (#[trigger] x.1@[i]) < marks@.len(),
{
    let mut placed: Vec<PlacedPedal> = Vec::new();
    let mut i: usize = 0;
    proof {
        assert(marks@.take(0) =~= Seq::<(Rat, PedalKind)>::empty());
    }
    while i < marks.len()
        invariant
            i <= marks@.len(),
            grid.wf(),
            forall|j: int| 0 <= j < marks@.len() ==> (#[trigger] marks@[j]).0.wf(),
            place_pedal(marks@.take(i as int), grid) == Some(placed@),
            placed@.len() == i,
            forall|j: int| 0 <= j < placed@.len() ==> (#[trigger] placed@[j]).mark == j,
        decreases marks.len() - i,
    {
        let (position, kind) = marks[i];
        proof {
            let t = marks@.take(i + 1);
            assert(t.drop_last() =~= marks@.take(i as int));
            assert(marks@[i as int].0.wf());
        }
        let k = match position.div_exact(grid) {
            Some(k) => k,
            None => {
                proof {
                    lemma_place_pedal_none(marks@, grid, (i + 1) as nat);
                }
                return None;
            },
        };
        proof {
            crate::rat::lemma_div_exact_meaning(position, grid);
        }
        placed.push(PlacedPedal { step: k as u64, kind, mark: i });
        i = i + 1;
    }
    proof {
        assert(marks@.take(marks@.len() as int) =~= marks@);
    }
    let sorted = stable_sort(&placed);
    let n = sorted.len();
    let mut steps: Vec<Step> = Vec::new();
    let mut j: usize = 0;
    while j < total
        invariant
            j <= total,
            steps@ == Seq::new(j as nat, |i: int| Step { note: None, held: false }),
        decreases total - j,
    {
        steps.push(Step::rest());
        j = j + 1;
        proof {
            assert(steps@ =~= Seq::new(j as nat, |i: int| Step { note: None, held: false }));
        }
    }
    let mut open: Option<u64> = None;
    let mut stray: Vec<usize> = Vec::new();
    let mut k: usize = 0;
    let ghost pl = placed@;
    while k < n
        invariant
            n == sorted@.len(),
            k <= n,
            pedal_fold(sorted@, total as nat, k as nat) == (steps@, open, stray@),
            sorted@ == stable_sorted(pl),
            pl.len() == marks@.len(),
            forall|j: int| 0 <= j < pl.len() ==> (#[trigger] pl[j]).mark == j,
            forall|j: int| 0 <= j < stray@.len() ==> (#[trigger] stray@[j]) < marks@.len(),
        decreases n - k,
    {
        let m = sorted[k];
        proof {
            crate::sorting::lemma_stable_sorted_contains(pl, k as int);
            let j = choose|j: int| 0 <= j < pl.len() && pl[j] == m;
            assert(m.mark < marks@.len());
        }
        match m.kind {
            PedalKind::Stop => {
                match open {
                    Some(s) => {
                        strike_span(&mut steps, s, m.step);
                        open = None;
                    },
                    None => {
                        stray.push(m.mark);
                    },
                }
            },
            _ => {
                match open {
                    Some(s) => {
                        strike_span(&mut steps, s, m.step);
                    },
                    None => {},
                }
                open = Some(m.step);
            },
        }
        k = k + 1;
    }
    match open {
        Some(s) => {
            strike_span(&mut steps, s, total as u64);
        },
        None => {},
    }
    Some((steps, stray))
}

} // verus!
