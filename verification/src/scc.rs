//! Strongly-connected components of a signal graph (Tarjan's algorithm, run
//! with an explicit call stack).

use vstd::prelude::*;
use crate::schedule::{adjacency_wf, is_path, vec_views};

verus! {

/// `comps` partitions the nodes `0..n`, and `comp_id` names each node's part.
pub open spec fn is_partition(comp_id: Seq<usize>, comps: Seq<Vec<usize>>, n: nat) -> bool {
    &&& comp_id.len() == n
    &&& forall|x: int| 0 <= x < n ==> (#[trigger] comp_id[x]) < comps.len()
    &&& forall|x: int| 0 <= x < n ==> comps[comp_id[x] as int]@.contains(x as usize)
    &&& forall|c: int| 0 <= c < comps.len() ==> (#[trigger] comps[c])@.len() > 0
    &&& forall|c: int, m: int|
        0 <= c < comps.len() && 0 <= m < comps[c]@.len() ==> (#[trigger] comps[c]@[m]) < n
            && comp_id[comps[c]@[m] as int] == c
    &&& forall|c: int, i: int, j: int|
        0 <= c < comps.len() && 0 <= i < j < comps[c]@.len() ==> (#[trigger] comps[c]@[i])
            != #[trigger] comps[c]@[j]
}

spec fn count_unvisited(s: Seq<usize>) -> nat
    decreases s.len(),
{
    if s.len() == 0 {
        0
    } else {
        count_unvisited(s.drop_last()) + if s.last() == usize::MAX { 1nat } else { 0nat }
    }
}

proof fn lemma_count_unvisited_update(s: Seq<usize>, i: int, w: usize)
    requires
        0 <= i < s.len(),
        s[i] == usize::MAX,
        w != usize::MAX,
    ensures
        count_unvisited(s.update(i, w)) + 1 == count_unvisited(s),
    decreases s.len(),
{
    let t = s.update(i, w);
    if i == s.len() - 1 {
        assert(t.drop_last() =~= s.drop_last());
    } else {
        lemma_count_unvisited_update(s.drop_last(), i, w);
        assert(t.drop_last() =~= s.drop_last().update(i, w));
    }
}

proof fn lemma_count_unvisited_all(s: Seq<usize>)
    requires
        forall|i: int| 0 <= i < s.len() ==> s[i] == usize::MAX,
    ensures
        count_unvisited(s) == s.len(),
    decreases s.len(),
{
    if s.len() > 0 {
        lemma_count_unvisited_all(s.drop_last());
    }
}

proof fn lemma_count_unvisited_le(s: Seq<usize>)
    ensures
        count_unvisited(s) <= s.len(),
    decreases s.len(),
{
    if s.len() > 0 {
        lemma_count_unvisited_le(s.drop_last());
    }
}

spec fn call_remaining(adj: Seq<Vec<usize>>, stack: Seq<(usize, usize)>) -> nat
    decreases stack.len(),
{
    if stack.len() == 0 {
        0
    } else {
        call_remaining(adj, stack.drop_last()) + (adj[stack.last().0 as int]@.len()
            - stack.last().1) as nat + 1
    }
}

/// Invariant of the search, between steps.
spec fn tarjan_inv(
    adj: Seq<Vec<usize>>,
    index: Seq<usize>,
    low: Seq<usize>,
    on_stack: Seq<bool>,
    comp_id: Seq<usize>,
    scc: Seq<usize>,
    comps: Seq<Vec<usize>>,
    call: Seq<(usize, usize)>,
    next_index: usize,
    base: usize,
) -> bool {
    let n = adj.len();
    &&& n < usize::MAX
    &&& index.len() == n
    &&& low.len() == n
    &&& on_stack.len() == n
    &&& comp_id.len() == n
    &&& count_unvisited(index) + next_index == n
    &&& comps.len() + scc.len() <= next_index
    &&& forall|x: int| 0 <= x < n && index[x] != usize::MAX ==> (#[trigger] index[x]) < next_index
    // assigned nodes
    &&& forall|x: int|
        0 <= x < n && (#[trigger] comp_id[x]) != usize::MAX ==> index[x] != usize::MAX
            && comp_id[x] < comps.len() && !on_stack[x] && comps[comp_id[x] as int]@.contains(
            x as usize,
        )
    &&& forall|c: int| 0 <= c < comps.len() ==> (#[trigger] comps[c])@.len() > 0
    &&& forall|c: int, m: int|
        0 <= c < comps.len() && 0 <= m < comps[c]@.len() ==> (#[trigger] comps[c]@[m]) < n
            && comp_id[comps[c]@[m] as int] == c
    &&& forall|c: int, i: int, j: int|
        0 <= c < comps.len() && 0 <= i < j < comps[c]@.len() ==> (#[trigger] comps[c]@[i])
            != #[trigger] comps[c]@[j]
    // the component stack holds exactly the visited, unassigned nodes
    &&& forall|x: int|
        0 <= x < n ==> (#[trigger] on_stack[x] <==> (index[x] != usize::MAX && comp_id[x]
            == usize::MAX))
    &&& forall|x: usize| x < n ==> (on_stack[x as int] <==> #[trigger] scc.contains(x))
    &&& forall|p: int| 0 <= p < scc.len() ==> (#[trigger] scc[p]) < n
    &&& forall|p: int, q: int| #![trigger scc[p], scc[q]]
        0 <= p < q < scc.len() ==> index[scc[p] as int] < index[scc[q] as int]
    &&& forall|p: int|
        0 <= p < scc.len() ==> base <= low[#[trigger] scc[p] as int] <= index[scc[p] as int]
            && base <= index[scc[p] as int]
    // the call stack
    &&& forall|i: int| 0 <= i < call.len() ==> (#[trigger] call[i]).0 < n
    &&& forall|i: int|
        0 <= i < call.len() ==> (#[trigger] call[i]).1 <= adj[call[i].0 as int]@.len()
    &&& forall|i: int| 0 <= i < call.len() ==> on_stack[(#[trigger] call[i]).0 as int]
    &&& forall|i: int, j: int| #![trigger call[i], call[j]]
        0 <= i < j < call.len() ==> index[call[i].0 as int] < index[call[j].0 as int]
    &&& call.len() > 0 ==> index[call[0].0 as int] == base
}

proof fn lemma_scc_distinct(index: Seq<usize>, scc: Seq<usize>, p: int, q: int)
    requires
        forall|p: int, q: int| #![trigger scc[p], scc[q]]
            0 <= p < q < scc.len() ==> index[scc[p] as int] < index[scc[q] as int],
        0 <= p < scc.len(),
        0 <= q < scc.len(),
        p != q,
        forall|x: int| 0 <= x < scc.len() ==> (#[trigger] scc[x]) < index.len(),
    ensures
        scc[p] != scc[q],
{
    if p < q {
        assert(index[scc[p] as int] < index[scc[q] as int]);
    } else {
        assert(index[scc[q] as int] < index[scc[p] as int]);
    }
}


/// The state while popping a finished root's component off the stack.
spec fn comp_pop_inv(
    adj: Seq<Vec<usize>>,
    index: Seq<usize>,
    low: Seq<usize>,
    on_stack: Seq<bool>,
    comp_id: Seq<usize>,
    scc: Seq<usize>,
    comps: Seq<Vec<usize>>,
    comp: Seq<usize>,
    call: Seq<(usize, usize)>,
    next_index: usize,
    base: usize,
    v: usize,
) -> bool {
    let n = adj.len();
    let c = comps.len();
    &&& n < usize::MAX
    &&& index.len() == n
    &&& low.len() == n
    &&& on_stack.len() == n
    &&& comp_id.len() == n
    &&& v < n
    &&& index[v as int] != usize::MAX
    &&& low[v as int] == index[v as int]
    &&& base <= index[v as int]
    &&& count_unvisited(index) + next_index == n
    &&& comps.len() + scc.len() + comp.len() <= next_index
    &&& forall|x: int| 0 <= x < n && index[x] != usize::MAX ==> (#[trigger] index[x]) < next_index
    &&& forall|x: int|
        0 <= x < n && (#[trigger] comp_id[x]) != usize::MAX ==> index[x] != usize::MAX
            && !on_stack[x] && ((comp_id[x] < c && comps[comp_id[x] as int]@.contains(x as usize))
            || (comp_id[x] == c && comp.contains(x as usize)))
    &&& forall|c: int| 0 <= c < comps.len() ==> (#[trigger] comps[c])@.len() > 0
    &&& forall|c: int, m: int|
        0 <= c < comps.len() && 0 <= m < comps[c]@.len() ==> (#[trigger] comps[c]@[m]) < n
            && comp_id[comps[c]@[m] as int] == c
    &&& forall|c: int, i: int, j: int|
        0 <= c < comps.len() && 0 <= i < j < comps[c]@.len() ==> (#[trigger] comps[c]@[i])
            != #[trigger] comps[c]@[j]
    &&& forall|m: int|
        0 <= m < comp.len() ==> (#[trigger] comp[m]) < n && comp_id[comp[m] as int] == c
            && index[comp[m] as int] >= index[v as int] && index[comp[m] as int] != usize::MAX
    &&& forall|i: int, j: int| 0 <= i < j < comp.len() ==> (#[trigger] comp[i]) != #[trigger] comp[j]
    &&& forall|x: int|
        0 <= x < n ==> (#[trigger] on_stack[x] <==> (index[x] != usize::MAX && comp_id[x]
            == usize::MAX))
    &&& forall|x: usize| x < n ==> (on_stack[x as int] <==> #[trigger] scc.contains(x))
    &&& forall|p: int| 0 <= p < scc.len() ==> (#[trigger] scc[p]) < n
    &&& forall|p: int, q: int| #![trigger scc[p], scc[q]]
        0 <= p < q < scc.len() ==> index[scc[p] as int] < index[scc[q] as int]
    &&& forall|p: int|
        0 <= p < scc.len() ==> base <= low[#[trigger] scc[p] as int] <= index[scc[p] as int]
            && base <= index[scc[p] as int]
    &&& forall|i: int| 0 <= i < call.len() ==> (#[trigger] call[i]).0 < n
    &&& forall|i: int|
        0 <= i < call.len() ==> (#[trigger] call[i]).1 <= adj[call[i].0 as int]@.len()
    &&& forall|i: int| 0 <= i < call.len() - 1 ==> on_stack[(#[trigger] call[i]).0 as int]
    &&& forall|i: int, j: int| #![trigger call[i], call[j]]
        0 <= i < j < call.len() ==> index[call[i].0 as int] < index[call[j].0 as int]
    &&& call.len() > 0 ==> index[call[0].0 as int] == base
}

spec fn comp_pop_done(
    adj: Seq<Vec<usize>>,
    index: Seq<usize>,
    low: Seq<usize>,
    on_stack: Seq<bool>,
    comp_id: Seq<usize>,
    scc: Seq<usize>,
    comps: Seq<Vec<usize>>,
    comp: Seq<usize>,
    call: Seq<(usize, usize)>,
    next_index: usize,
    base: usize,
    v: usize,
) -> bool {
    &&& comp_pop_inv(adj, index, low, on_stack, comp_id, scc, comps, comp, call, next_index, base, v)
    &&& comp.contains(v)
    &&& forall|p: int| 0 <= p < scc.len() ==> index[(#[trigger] scc[p]) as int] < index[v as int]
}

proof fn lemma_visit_start(
    adj: Seq<Vec<usize>>,
    index: Seq<usize>,
    low: Seq<usize>,
    on_stack: Seq<bool>,
    comp_id: Seq<usize>,
    comps: Seq<Vec<usize>>,
    ni: usize,
    start: usize,
)
    requires
        tarjan_inv(adj, index, low, on_stack, comp_id, Seq::empty(), comps, Seq::empty(), ni, 0),
        start < adj.len(),
        index[start as int] == usize::MAX,
        ni < usize::MAX,
        count_unvisited(index.update(start as int, ni)) + 1 == count_unvisited(index),
    ensures
        tarjan_inv(
            adj,
            index.update(start as int, ni),
            low.update(start as int, ni),
            on_stack.update(start as int, true),
            comp_id,
            seq![start],
            comps,
            seq![(start, 0usize)],
            (ni + 1) as usize,
            ni,
        ),
{
    let n = adj.len();
    let index2 = index.update(start as int, ni);
    let low2 = low.update(start as int, ni);
    let on2 = on_stack.update(start as int, true);
    let scc2 = seq![start];
    let call2 = seq![(start, 0usize)];
    assert(comp_id[start as int] == usize::MAX) by {
        if comp_id[start as int] != usize::MAX {
            assert(index[start as int] != usize::MAX);
        }
    }
    assert forall|x: usize| x < n implies (on2[x as int] <==> #[trigger] scc2.contains(x)) by {
        if x == start {
            assert(scc2[0] == x);
        } else {
            assert(!Seq::<usize>::empty().contains(x));
            if scc2.contains(x) {
                let p = choose|p: int| 0 <= p < scc2.len() && scc2[p] == x;
                assert(p == 0);
            }
        }
    }
    assert forall|x: int|
        0 <= x < n && (#[trigger] comp_id[x]) != usize::MAX implies index2[x] != usize::MAX
            && comp_id[x] < comps.len() && !on2[x] && comps[comp_id[x] as int]@.contains(
            x as usize,
        ) by {
        assert(x != start);
    }
    assert(call2[0].0 == start);
}

proof fn lemma_step_cursor(
    adj: Seq<Vec<usize>>,
    index: Seq<usize>,
    low: Seq<usize>,
    on_stack: Seq<bool>,
    comp_id: Seq<usize>,
    scc: Seq<usize>,
    comps: Seq<Vec<usize>>,
    call: Seq<(usize, usize)>,
    ni: usize,
    base: usize,
)
    requires
        tarjan_inv(adj, index, low, on_stack, comp_id, scc, comps, call, ni, base),
        call.len() > 0,
        call.last().1 < adj[call.last().0 as int]@.len(),
    ensures
        tarjan_inv(
            adj,
            index,
            low,
            on_stack,
            comp_id,
            scc,
            comps,
            call.update(call.len() - 1, (call.last().0, (call.last().1 + 1) as usize)),
            ni,
            base,
        ),
{
    let call2 = call.update(call.len() - 1, (call.last().0, (call.last().1 + 1) as usize));
    assert forall|i: int, j: int| #![trigger call2[i], call2[j]]
        0 <= i < j < call2.len() implies index[call2[i].0 as int] < index[call2[j].0 as int] by {
        assert(call2[i].0 == call[i].0);
        assert(call2[j].0 == call[j].0);
    }
    assert forall|i: int| 0 <= i < call2.len() implies on_stack[(#[trigger] call2[i]).0 as int] by {
        assert(call2[i].0 == call[i].0);
    }
    assert forall|i: int| 0 <= i < call2.len() implies (#[trigger] call2[i]).1 <= adj[call2[i].0 as int]@.len() by {
        assert(call2[i].0 == call[i].0);
    }
    assert(call2[0].0 == call[0].0);
}

proof fn lemma_step_visit(
    adj: Seq<Vec<usize>>,
    index: Seq<usize>,
    low: Seq<usize>,
    on_stack: Seq<bool>,
    comp_id: Seq<usize>,
    scc: Seq<usize>,
    comps: Seq<Vec<usize>>,
    call: Seq<(usize, usize)>,
    ni: usize,
    base: usize,
    w: usize,
)
    requires
        tarjan_inv(adj, index, low, on_stack, comp_id, scc, comps, call, ni, base),
        call.len() > 0,
        w < adj.len(),
        index[w as int] == usize::MAX,
        ni < usize::MAX,
        base <= ni,
        count_unvisited(index.update(w as int, ni)) + 1 == count_unvisited(index),
    ensures
        tarjan_inv(
            adj,
            index.update(w as int, ni),
            low.update(w as int, ni),
            on_stack.update(w as int, true),
            comp_id,
            scc.push(w),
            comps,
            call.push((w, 0usize)),
            (ni + 1) as usize,
            base,
        ),
{
    let n = adj.len();
    let index2 = index.update(w as int, ni);
    let low2 = low.update(w as int, ni);
    let on2 = on_stack.update(w as int, true);
    let scc2 = scc.push(w);
    let call2 = call.push((w, 0usize));
    assert(comp_id[w as int] == usize::MAX) by {
        if comp_id[w as int] != usize::MAX {
            assert(index[w as int] != usize::MAX);
        }
    }
    assert(!on_stack[w as int]);
    assert(!scc.contains(w));
    assert forall|x: usize| x < n implies (on2[x as int] <==> #[trigger] scc2.contains(x)) by {
        if x == w {
            assert(scc2[scc.len() as int] == x);
        } else {
            if scc2.contains(x) {
                let p = choose|p: int| 0 <= p < scc2.len() && scc2[p] == x;
                assert(scc[p] == x);
            }
            if scc.contains(x) {
                let p = choose|p: int| 0 <= p < scc.len() && scc[p] == x;
                assert(scc2[p] == x);
            }
        }
    }
    assert forall|p: int| 0 <= p < scc.len() implies scc[p] != w by {
        assert(scc.contains(scc[p]));
    }
    assert forall|p: int, q: int| #![trigger scc2[p], scc2[q]]
        0 <= p < q < scc2.len() implies index2[scc2[p] as int] < index2[scc2[q] as int] by {
        assert(scc2[p] == scc[p]);
        assert(scc[p] != w);
        assert(index[scc[p] as int] != usize::MAX) by {
            assert(on_stack[scc[p] as int]) by { assert(scc.contains(scc[p])); }
        }
        if q < scc.len() {
            assert(scc2[q] == scc[q]);
            assert(scc[q] != w);
        }
    }
    assert forall|p: int|
        0 <= p < scc2.len() implies base <= low2[#[trigger] scc2[p] as int] <= index2[scc2[p] as int]
            && base <= index2[scc2[p] as int] by {
        if p < scc.len() {
            assert(scc2[p] == scc[p]);
            assert(scc[p] != w);
        }
    }
    assert forall|x: int|
        0 <= x < n && (#[trigger] comp_id[x]) != usize::MAX implies index2[x] != usize::MAX
            && comp_id[x] < comps.len() && !on2[x] && comps[comp_id[x] as int]@.contains(
            x as usize,
        ) by {
        assert(x != w);
    }
    assert forall|i: int| 0 <= i < call2.len() implies on2[(#[trigger] call2[i]).0 as int] by {
        if i < call.len() {
            assert(call2[i] == call[i]);
        }
    }
    assert forall|i: int, j: int| #![trigger call2[i], call2[j]]
        0 <= i < j < call2.len() implies index2[call2[i].0 as int] < index2[call2[j].0 as int] by {
        assert(call2[i] == call[i]);
        assert(on_stack[call[i].0 as int]);
        assert(call[i].0 != w);
        if j < call.len() {
            assert(call2[j] == call[j]);
            assert(on_stack[call[j].0 as int]);
            assert(call[j].0 != w);
        }
    }
    assert forall|i: int| 0 <= i < call2.len() implies (#[trigger] call2[i]).1 <= adj[call2[i].0 as int]@.len() by {
        if i < call.len() {
            assert(call2[i] == call[i]);
        }
    }
    assert(call2[0] == call[0]);
    assert(on_stack[call[0].0 as int]);
    assert(call[0].0 != w);
}

proof fn lemma_step_low(
    adj: Seq<Vec<usize>>,
    index: Seq<usize>,
    low: Seq<usize>,
    on_stack: Seq<bool>,
    comp_id: Seq<usize>,
    scc: Seq<usize>,
    comps: Seq<Vec<usize>>,
    call: Seq<(usize, usize)>,
    ni: usize,
    base: usize,
    v: usize,
    w: usize,
)
    requires
        tarjan_inv(adj, index, low, on_stack, comp_id, scc, comps, call, ni, base),
        call.len() > 0,
        call.last().0 == v,
        w < adj.len(),
        on_stack[w as int],
        index[w as int] < low[v as int],
    ensures
        tarjan_inv(adj, index, low.update(v as int, index[w as int]), on_stack, comp_id, scc, comps, call, ni, base),
{
    let n = adj.len();
    let low2 = low.update(v as int, index[w as int]);
    assert(scc.contains(w));
    let pw = choose|p: int| 0 <= p < scc.len() && scc[p] == w;
    assert(base <= index[scc[pw] as int]);
    assert(on_stack[v as int]) by { assert(on_stack[call[call.len() - 1].0 as int]); }
    assert(scc.contains(v));
    let pv = choose|p: int| 0 <= p < scc.len() && scc[p] == v;
    assert(low[scc[pv] as int] <= index[scc[pv] as int]);
    assert forall|p: int|
        0 <= p < scc.len() implies base <= low2[#[trigger] scc[p] as int] <= index[scc[p] as int]
            && base <= index[scc[p] as int] by {
    }
}

proof fn lemma_pop_start(
    adj: Seq<Vec<usize>>,
    index: Seq<usize>,
    low: Seq<usize>,
    on_stack: Seq<bool>,
    comp_id: Seq<usize>,
    scc: Seq<usize>,
    comps: Seq<Vec<usize>>,
    call: Seq<(usize, usize)>,
    ni: usize,
    base: usize,
    v: usize,
)
    requires
        tarjan_inv(adj, index, low, on_stack, comp_id, scc, comps, call, ni, base),
        call.len() > 0,
        call.last().0 == v,
        low[v as int] == index[v as int],
    ensures
        comp_pop_inv(adj, index, low, on_stack, comp_id, scc, comps, Seq::empty(), call, ni, base, v),
        scc.contains(v),
{
    let n = adj.len();
    assert(on_stack[v as int]) by { assert(on_stack[call[call.len() - 1].0 as int]); }
    assert(scc.contains(v));
    let pv = choose|p: int| 0 <= p < scc.len() && scc[p] == v;
    assert(base <= index[scc[pv] as int]);
    assert forall|x: int|
        0 <= x < n && (#[trigger] comp_id[x]) != usize::MAX implies index[x] != usize::MAX
            && !on_stack[x] && ((comp_id[x] < comps.len() && comps[comp_id[x] as int]@.contains(x as usize))
            || (comp_id[x] == comps.len() && Seq::<usize>::empty().contains(x as usize))) by {
    }
}

proof fn lemma_pop_step(
    adj: Seq<Vec<usize>>,
    index: Seq<usize>,
    low: Seq<usize>,
    on_stack: Seq<bool>,
    comp_id: Seq<usize>,
    scc: Seq<usize>,
    comps: Seq<Vec<usize>>,
    comp: Seq<usize>,
    call: Seq<(usize, usize)>,
    ni: usize,
    base: usize,
    v: usize,
)
    requires
        comp_pop_inv(adj, index, low, on_stack, comp_id, scc, comps, comp, call, ni, base, v),
        scc.contains(v),
        call.len() > 0,
        call.last().0 == v,
    ensures
        ({
            let w = scc.last();
            let on2 = on_stack.update(w as int, false);
            let cid2 = comp_id.update(w as int, comps.len() as usize);
            let scc2 = scc.drop_last();
            let comp2 = comp.push(w);
            &&& comp_pop_inv(adj, index, low, on2, cid2, scc2, comps, comp2, call, ni, base, v)
            &&& w != v ==> scc2.contains(v)
            &&& w == v ==> comp_pop_done(adj, index, low, on2, cid2, scc2, comps, comp2, call, ni, base, v)
        }),
{
    let n = adj.len();
    let c = comps.len();
    let last = scc.len() - 1;
    let w = scc.last();
    let on2 = on_stack.update(w as int, false);
    let cid2 = comp_id.update(w as int, c as usize);
    let scc2 = scc.drop_last();
    let comp2 = comp.push(w);
    let pv = choose|p: int| 0 <= p < scc.len() && scc[p] == v;
    assert(index[v as int] <= index[w as int]) by {
        if pv < last {
            assert(index[scc[pv] as int] < index[scc[last] as int]);
        }
    }
    assert(w < n);
    assert(on_stack[w as int]) by { assert(scc.contains(w)); }
    assert(comp_id[w as int] == usize::MAX);
    assert(index[w as int] != usize::MAX);
    assert(!comp.contains(w)) by {
        if comp.contains(w) {
            let m = choose|m: int| 0 <= m < comp.len() && comp[m] == w;
            assert(comp_id[comp[m] as int] == c);
        }
    }
    assert forall|p: int| 0 <= p < scc2.len() implies scc2[p] != w by {
        assert(scc2[p] == scc[p]);
        lemma_scc_distinct(index, scc, p, last);
    }
    assert forall|x: usize| x < n implies (on2[x as int] <==> #[trigger] scc2.contains(x)) by {
        if x == w {
            if scc2.contains(x) {
                let p = choose|p: int| 0 <= p < scc2.len() && scc2[p] == x;
            }
        } else {
            if scc2.contains(x) {
                let p = choose|p: int| 0 <= p < scc2.len() && scc2[p] == x;
                assert(scc[p] == x);
            }
            if scc.contains(x) {
                let p = choose|p: int| 0 <= p < scc.len() && scc[p] == x;
                assert(p != last);
                assert(scc2[p] == x);
            }
        }
    }
    assert forall|x: int|
        0 <= x < n && (#[trigger] cid2[x]) != usize::MAX implies index[x] != usize::MAX
            && !on2[x] && ((cid2[x] < c && comps[cid2[x] as int]@.contains(x as usize))
            || (cid2[x] == c && comp2.contains(x as usize))) by {
        if x == w {
            assert(comp2[comp.len() as int] == w);
        } else {
            if comp_id[x] == c {
                let m = choose|m: int| 0 <= m < comp.len() && comp[m] == x as usize;
                assert(comp2[m] == x);
            }
        }
    }
    assert forall|cc: int, m: int|
        0 <= cc < comps.len() && 0 <= m < comps[cc]@.len() implies (#[trigger] comps[cc]@[m]) < n
            && cid2[comps[cc]@[m] as int] == cc by {
        assert(comps[cc]@[m] != w);
    }
    assert forall|m: int|
        0 <= m < comp2.len() implies (#[trigger] comp2[m]) < n && cid2[comp2[m] as int] == c
            && index[comp2[m] as int] >= index[v as int] && index[comp2[m] as int] != usize::MAX by {
        if m < comp.len() {
            assert(comp2[m] == comp[m]);
        }
    }
    assert forall|i: int, j: int| 0 <= i < j < comp2.len() implies (#[trigger] comp2[i]) != #[trigger] comp2[j] by {
        if j == comp.len() {
            assert(comp2[i] == comp[i]);
            assert(comp.contains(comp[i]));
        } else {
            assert(comp2[i] == comp[i]);
            assert(comp2[j] == comp[j]);
        }
    }
    assert forall|i: int| 0 <= i < call.len() - 1 implies on2[(#[trigger] call[i]).0 as int] by {
        assert(index[call[i].0 as int] < index[call[call.len() - 1].0 as int]);
    }
    assert forall|p: int, q: int| #![trigger scc2[p], scc2[q]]
        0 <= p < q < scc2.len() implies index[scc2[p] as int] < index[scc2[q] as int] by {
        assert(scc2[p] == scc[p]);
        assert(scc2[q] == scc[q]);
    }
    assert forall|p: int|
        0 <= p < scc2.len() implies base <= low[#[trigger] scc2[p] as int] <= index[scc2[p] as int]
            && base <= index[scc2[p] as int] by {
        assert(scc2[p] == scc[p]);
    }
    if w != v {
        assert(pv != last);
        assert(scc2[pv] == v);
    } else {
        assert(comp2[comp.len() as int] == v);
        assert forall|p: int| 0 <= p < scc2.len() implies index[(#[trigger] scc2[p]) as int] < index[v as int] by {
            assert(scc2[p] == scc[p]);
            assert(index[scc[p] as int] < index[scc[last] as int]);
        }
    }
}

proof fn lemma_pop_finish(
    adj: Seq<Vec<usize>>,
    index: Seq<usize>,
    low: Seq<usize>,
    on_stack: Seq<bool>,
    comp_id: Seq<usize>,
    scc: Seq<usize>,
    comps: Seq<Vec<usize>>,
    comp: Seq<usize>,
    call: Seq<(usize, usize)>,
    ni: usize,
    base: usize,
    v: usize,
)
    requires
        comp_pop_done(adj, index, low, on_stack, comp_id, scc, comps, comp, call, ni, base, v),
        call.len() > 0,
        call.last().0 == v,
    ensures
        forall|cv: Vec<usize>| cv@ == comp ==> tarjan_inv(adj, index, low, on_stack, comp_id, scc, #[trigger] comps.push(cv), call.drop_last(), ni, base),
        call.drop_last().len() == 0 ==> scc.len() == 0,
{
    let n = adj.len();
    let c = comps.len();
    let call2 = call.drop_last();
    assert forall|cv: Vec<usize>| cv@ == comp implies tarjan_inv(adj, index, low, on_stack, comp_id, scc, #[trigger] comps.push(cv), call2, ni, base) by {
        let comps2 = comps.push(cv);
        assert(comps2[c as int] == cv);
        assert forall|x: int|
            0 <= x < n && (#[trigger] comp_id[x]) != usize::MAX implies index[x] != usize::MAX
                && comp_id[x] < comps2.len() && !on_stack[x] && comps2[comp_id[x] as int]@.contains(
                x as usize,
            ) by {
            if comp_id[x] < c {
                assert(comps2[comp_id[x] as int] == comps[comp_id[x] as int]);
            }
        }
        assert forall|cc: int| 0 <= cc < comps2.len() implies (#[trigger] comps2[cc])@.len() > 0 by {
            if cc < c {
                assert(comps2[cc] == comps[cc]);
            } else {
                assert(comp.contains(v));
            }
        }
        assert forall|cc: int, m: int|
            0 <= cc < comps2.len() && 0 <= m < comps2[cc]@.len() implies (#[trigger] comps2[cc]@[m]) < n
                && comp_id[comps2[cc]@[m] as int] == cc by {
            if cc < c {
                assert(comps2[cc] == comps[cc]);
            }
        }
        assert forall|cc: int, i: int, j: int|
            0 <= cc < comps2.len() && 0 <= i < j < comps2[cc]@.len() implies (#[trigger] comps2[cc]@[i])
                != #[trigger] comps2[cc]@[j] by {
            if cc < c {
                assert(comps2[cc] == comps[cc]);
            }
        }
        assert forall|i: int| 0 <= i < call2.len() implies on_stack[(#[trigger] call2[i]).0 as int] by {
            assert(call2[i] == call[i]);
        }
        assert forall|i: int, j: int| #![trigger call2[i], call2[j]]
            0 <= i < j < call2.len() implies index[call2[i].0 as int] < index[call2[j].0 as int] by {
            assert(call2[i] == call[i]);
            assert(call2[j] == call[j]);
        }
        assert forall|i: int| 0 <= i < call2.len() implies (#[trigger] call2[i]).0 < n by {
            assert(call2[i] == call[i]);
        }
        assert forall|i: int| 0 <= i < call2.len() implies (#[trigger] call2[i]).1 <= adj[call2[i].0 as int]@.len() by {
            assert(call2[i] == call[i]);
        }
        if call2.len() > 0 {
            assert(call2[0] == call[0]);
        }
    }
    if call2.len() == 0 {
        assert(call.len() == 1);
        assert(index[v as int] == base);
        if scc.len() > 0 {
            assert(index[scc[0] as int] < index[v as int]);
            assert(base <= index[scc[0] as int]);
        }
    }
}

proof fn lemma_finish_nonroot(
    adj: Seq<Vec<usize>>,
    index: Seq<usize>,
    low: Seq<usize>,
    on_stack: Seq<bool>,
    comp_id: Seq<usize>,
    scc: Seq<usize>,
    comps: Seq<Vec<usize>>,
    call: Seq<(usize, usize)>,
    ni: usize,
    base: usize,
    start: usize,
)
    requires
        tarjan_inv(adj, index, low, on_stack, comp_id, scc, comps, call, ni, base),
        call.len() > 0,
        low[call.last().0 as int] != index[call.last().0 as int],
    ensures
        tarjan_inv(adj, index, low, on_stack, comp_id, scc, comps, call.drop_last(), ni, base),
        call.drop_last().len() > 0,
{
    let v = call.last().0;
    let call2 = call.drop_last();
    assert(on_stack[v as int]) by { assert(on_stack[call[call.len() - 1].0 as int]); }
    assert(scc.contains(v));
    let pv = choose|p: int| 0 <= p < scc.len() && scc[p] == v;
    assert(base <= low[scc[pv] as int] <= index[scc[pv] as int]);
    if call.len() == 1 {
        assert(index[call[0].0 as int] == base);
    }
    assert forall|i: int| 0 <= i < call2.len() implies on_stack[(#[trigger] call2[i]).0 as int] by {
        assert(call2[i] == call[i]);
    }
    assert forall|i: int, j: int| #![trigger call2[i], call2[j]]
        0 <= i < j < call2.len() implies index[call2[i].0 as int] < index[call2[j].0 as int] by {
        assert(call2[i] == call[i]);
        assert(call2[j] == call[j]);
    }
    assert forall|i: int| 0 <= i < call2.len() implies (#[trigger] call2[i]).0 < adj.len() by {
        assert(call2[i] == call[i]);
    }
    assert forall|i: int| 0 <= i < call2.len() implies (#[trigger] call2[i]).1 <= adj[call2[i].0 as int]@.len() by {
        assert(call2[i] == call[i]);
    }
    assert(call2[0] == call[0]);
}

proof fn lemma_parent_low(
    adj: Seq<Vec<usize>>,
    index: Seq<usize>,
    low: Seq<usize>,
    on_stack: Seq<bool>,
    comp_id: Seq<usize>,
    scc: Seq<usize>,
    comps: Seq<Vec<usize>>,
    call: Seq<(usize, usize)>,
    ni: usize,
    base: usize,
    v: usize,
)
    requires
        tarjan_inv(adj, index, low, on_stack, comp_id, scc, comps, call, ni, base),
        call.len() > 0,
        v < adj.len(),
        base <= low[v as int],
        low[v as int] < low[call.last().0 as int],
    ensures
        tarjan_inv(adj, index, low.update(call.last().0 as int, low[v as int]), on_stack, comp_id, scc, comps, call, ni, base),
{
    let p = call.last().0;
    assert(on_stack[p as int]) by { assert(on_stack[call[call.len() - 1].0 as int]); }
    assert(scc.contains(p));
    let pp = choose|q: int| 0 <= q < scc.len() && scc[q] == p;
    assert(low[scc[pp] as int] <= index[scc[pp] as int]);
}

/// After every tree is searched, every node has a component and the
/// components partition the nodes.
proof fn lemma_all_assigned(
    adj: Seq<Vec<usize>>,
    index: Seq<usize>,
    low: Seq<usize>,
    on_stack: Seq<bool>,
    comp_id: Seq<usize>,
    scc: Seq<usize>,
    comps: Seq<Vec<usize>>,
    ni: usize,
)
    requires
        tarjan_inv(adj, index, low, on_stack, comp_id, scc, comps, Seq::empty(), ni, 0),
        scc.len() == 0,
        forall|x: int| 0 <= x < adj.len() ==> index[x] != usize::MAX,
    ensures
        is_partition(comp_id, comps, adj.len()),
{
    let n = adj.len();
    assert forall|x: int| 0 <= x < n implies (#[trigger] comp_id[x]) < comps.len() by {
        if comp_id[x] == usize::MAX {
            assert(on_stack[x]);
            assert(scc.contains(x as usize));
        }
    }
    assert forall|x: int| 0 <= x < n implies comps[comp_id[x] as int]@.contains(x as usize) by {
        assert(comp_id[x] < comps.len());
    }
}

proof fn lemma_reversed_partition(
    comp_id: Seq<usize>,
    comps: Seq<Vec<usize>>,
    ids: Seq<usize>,
    ordered: Seq<Vec<usize>>,
    n: nat,
)
    requires
        is_partition(comp_id, comps, n),
        ids.len() == n,
        ordered.len() == comps.len(),
        forall|y: int| 0 <= y < n ==> ids[y] == comps.len() - 1 - comp_id[y],
        forall|i: int| 0 <= i < ordered.len() ==> ordered[i] == comps[comps.len() - 1 - i],
    ensures
        is_partition(ids, ordered, n),
{
    let t = comps.len();
    assert forall|x: int| 0 <= x < n implies ordered[ids[x] as int]@.contains(x as usize) by {
        assert(ordered[ids[x] as int] == comps[comp_id[x] as int]);
    }
    assert forall|c: int| 0 <= c < ordered.len() implies (#[trigger] ordered[c])@.len() > 0 by {
        assert(ordered[c] == comps[t - 1 - c]);
    }
    assert forall|c: int, m: int|
        0 <= c < ordered.len() && 0 <= m < ordered[c]@.len() implies (#[trigger] ordered[c]@[m]) < n
            && ids[ordered[c]@[m] as int] == c by {
        assert(ordered[c] == comps[t - 1 - c]);
        assert(comps[t - 1 - c]@[m] < n);
    }
    assert forall|c: int, i: int, j: int|
        0 <= c < ordered.len() && 0 <= i < j < ordered[c]@.len() implies (#[trigger] ordered[c]@[i])
            != #[trigger] ordered[c]@[j] by {
        assert(ordered[c] == comps[t - 1 - c]);
        assert(comps[t - 1 - c]@[i] != comps[t - 1 - c]@[j]);
    }
}

// ---------------------------------------------------------------------------
// What the search means: reachability

/// `b` can be reached from `a` along the edges of `g`.
pub open spec fn reaches(g: Seq<Seq<usize>>, a: usize, b: usize) -> bool {
    exists|p: Seq<usize>| #[trigger] is_path(g, p) && p[0] == a && p.last() == b
}

pub proof fn lemma_reaches_refl(g: Seq<Seq<usize>>, a: usize)
    requires
        a < g.len(),
    ensures
        reaches(g, a, a),
{
    let p = seq![a];
    assert(is_path(g, p));
}

pub proof fn lemma_reaches_edge(g: Seq<Seq<usize>>, a: usize, j: int)
    requires
        adjacency_wf(g),
        a < g.len(),
        0 <= j < g[a as int].len(),
    ensures
        reaches(g, a, g[a as int][j]),
{
    let b = g[a as int][j];
    let p = seq![a, b];
    assert(g[a as int].contains(b));
    assert(is_path(g, p)) by {
        assert forall|i: int| 0 <= i < p.len() - 1 implies g[p[i] as int].contains(#[trigger] p[i + 1]) by {
            assert(i == 0);
        }
    }
}

pub proof fn lemma_reaches_trans(g: Seq<Seq<usize>>, a: usize, b: usize, c: usize)
    requires
        reaches(g, a, b),
        reaches(g, b, c),
    ensures
        reaches(g, a, c),
{
    let p = choose|p: Seq<usize>| #[trigger] is_path(g, p) && p[0] == a && p.last() == b;
    let q = choose|q: Seq<usize>| #[trigger] is_path(g, q) && q[0] == b && q.last() == c;
    let r = p + q.subrange(1, q.len() as int);
    assert(is_path(g, r)) by {
        assert forall|i: int| 0 <= i < r.len() implies (#[trigger] r[i]) < g.len() by {
            if i < p.len() {
                assert(r[i] == p[i]);
            } else {
                assert(r[i] == q[i - p.len() + 1]);
            }
        }
        assert forall|i: int| 0 <= i < r.len() - 1 implies g[r[i] as int].contains(#[trigger] r[i + 1]) by {
            if i < p.len() - 1 {
                assert(r[i] == p[i] && r[i + 1] == p[i + 1]);
            } else if i == p.len() - 1 {
                assert(r[i] == p[i]);
                assert(p[i] == q[0]);
                assert(r[i + 1] == q[1]);
            } else {
                assert(r[i] == q[i - p.len() + 1]);
                assert(r[i + 1] == q[i - p.len() + 2]);
            }
        }
    }
    if q.len() == 1 {
        assert(r =~= p);
    } else {
        assert(r.last() == q.last());
    }
}

/// Along every edge the label does not decrease, so it does not decrease
/// along a path either.
pub proof fn lemma_path_labels(g: Seq<Seq<usize>>, label: Seq<usize>, p: Seq<usize>)
    requires
        adjacency_wf(g),
        label.len() == g.len(),
        is_path(g, p),
        forall|x: int, j: int| 0 <= x < g.len() && 0 <= j < g[x].len() ==> label[x] <= label[#[trigger] g[x][j] as int],
    ensures
        label[p[0] as int] <= label[p.last() as int],
    decreases p.len(),
{
    if p.len() > 1 {
        let q = p.drop_last();
        assert(is_path(g, q)) by {
            assert forall|i: int| 0 <= i < q.len() - 1 implies g[q[i] as int].contains(#[trigger] q[i + 1]) by {
                assert(g[p[i] as int].contains(p[i + 1]));
            }
        }
        lemma_path_labels(g, label, q);
        let a = p[p.len() - 2];
        let k = p.len() - 2;
        assert(g[p[k] as int].contains(p[k + 1]));
        assert(p[k + 1] == p.last());
        let j = choose|j: int| 0 <= j < g[a as int].len() && g[a as int][j] == p.last();
        assert(label[a as int] <= label[g[a as int][j] as int]);
    }
}

/// Edge `j` of `x` has been examined: its target is visited, and when the
/// target is still on the stack, `x`'s low-link is at most its index.
spec fn edge_done(g: Seq<Seq<usize>>, index: Seq<usize>, low: Seq<usize>, on_stack: Seq<bool>, x: int, j: int) -> bool {
    let w = g[x][j] as int;
    index[w] != usize::MAX && (on_stack[w] ==> low[x] <= index[w])
}

spec fn is_frame(call: Seq<(usize, usize)>, x: int) -> bool {
    exists|i: int| 0 <= i < call.len() && #[trigger] call[i].0 == x
}

/// `x` was visited while frame `i` was the deepest frame still open.
spec fn in_range(index: Seq<usize>, call: Seq<(usize, usize)>, i: int, x: int) -> bool {
    &&& index[call[i].0 as int] <= index[x]
    &&& (i + 1 == call.len() || index[x] < index[call[i + 1].0 as int])
}

/// The node whose index is `x`'s low-link is on the stack and reachable
/// from `x`.
spec fn low_witness(g: Seq<Seq<usize>>, index: Seq<usize>, low: Seq<usize>, on_stack: Seq<bool>, x: int) -> bool {
    exists|y: int| 0 <= y < index.len() && on_stack[y] && #[trigger] index[y] == low[x] && reaches(g, x as usize, y as usize)
}

/// What the search state means for the graph.
spec fn tarjan_sem(
    g: Seq<Seq<usize>>,
    index: Seq<usize>,
    low: Seq<usize>,
    on_stack: Seq<bool>,
    comp_id: Seq<usize>,
    call: Seq<(usize, usize)>,
) -> bool {
    let n = g.len();
    // examined edges of open frames and of finished nodes still on the stack
    &&& forall|i: int, j: int| 0 <= i < call.len() && 0 <= j < call[i].1
        ==> #[trigger] edge_done(g, index, low, on_stack, call[i].0 as int, j)
    &&& forall|x: int, j: int| 0 <= x < n && on_stack[x] && !is_frame(call, x) && 0 <= j < g[x].len()
        ==> #[trigger] edge_done(g, index, low, on_stack, x, j)
    // no edge leaves a finished component for a later one
    &&& forall|x: int, j: int| 0 <= x < n && comp_id[x] != usize::MAX && 0 <= j < g[x].len()
        ==> comp_id[#[trigger] g[x][j] as int] != usize::MAX && comp_id[g[x][j] as int] <= comp_id[x]
    // a frame reaches what was visited under it, with no lower low-link
    &&& forall|i: int, x: int| 0 <= i < call.len() && 0 <= x < n && on_stack[x] && #[trigger] in_range(index, call, i, x)
        ==> low[call[i].0 as int] <= low[x] && reaches(g, call[i].0, x as usize)
    &&& forall|i: int| 0 <= i < call.len() - 1 ==> reaches(g, (#[trigger] call[i]).0, call[i + 1].0)
    &&& forall|x: int| 0 <= x < n && on_stack[x] ==> #[trigger] low_witness(g, index, low, on_stack, x)
    // a finished node left on the stack is not a component's root
    &&& forall|x: int| 0 <= x < n && on_stack[x] && !#[trigger] is_frame(call, x) ==> low[x] < index[x]
    // a finished component is strongly connected
    &&& forall|x: int, y: int| #![trigger comp_id[x], comp_id[y]]
        0 <= x < n && 0 <= y < n && comp_id[x] != usize::MAX && comp_id[x] == comp_id[y]
        ==> reaches(g, x as usize, y as usize)
}

proof fn lemma_on_stack_distinct(
    adj: Seq<Vec<usize>>, index: Seq<usize>, low: Seq<usize>, on_stack: Seq<bool>, comp_id: Seq<usize>,
    scc: Seq<usize>, comps: Seq<Vec<usize>>, call: Seq<(usize, usize)>, ni: usize, base: usize, x: int, y: int,
)
    requires
        tarjan_inv(adj, index, low, on_stack, comp_id, scc, comps, call, ni, base),
        0 <= x < adj.len(),
        0 <= y < adj.len(),
        on_stack[x],
        on_stack[y],
        x != y,
    ensures
        index[x] != index[y],
{
    assert(scc.contains(x as usize));
    assert(scc.contains(y as usize));
    let p = choose|p: int| 0 <= p < scc.len() && scc[p] == x as usize;
    let q = choose|q: int| 0 <= q < scc.len() && scc[q] == y as usize;
    if p < q {
        assert(index[scc[p] as int] < index[scc[q] as int]);
    } else {
        assert(index[scc[q] as int] < index[scc[p] as int]);
    }
}

proof fn lemma_sem_start(
    adj: Seq<Vec<usize>>, index: Seq<usize>, low: Seq<usize>, on_stack: Seq<bool>, comp_id: Seq<usize>,
    comps: Seq<Vec<usize>>, ni: usize, start: usize,
)
    requires
        tarjan_inv(adj, index, low, on_stack, comp_id, Seq::empty(), comps, Seq::empty(), ni, 0),
        tarjan_sem(vec_views(adj), index, low, on_stack, comp_id, Seq::empty()),
        start < adj.len(),
        index[start as int] == usize::MAX,
    ensures
        tarjan_sem(vec_views(adj), index.update(start as int, ni), low.update(start as int, ni),
            on_stack.update(start as int, true), comp_id, seq![(start, 0usize)]),
{
    let g = vec_views(adj);
    let n = adj.len();
    let index2 = index.update(start as int, ni);
    let low2 = low.update(start as int, ni);
    let on2 = on_stack.update(start as int, true);
    let call2 = seq![(start, 0usize)];
    assert forall|x: int| 0 <= x < n && x != start implies !on_stack[x] by {
        assert(!Seq::<usize>::empty().contains(x as usize));
    }
    assert(is_frame(call2, start as int)) by {
        assert(call2[0].0 == start);
    }
    assert forall|x: int, j: int| 0 <= x < n && on2[x] && !is_frame(call2, x) && 0 <= j < g[x].len()
        implies #[trigger] edge_done(g, index2, low2, on2, x, j) by {
        assert(x == start);
    }
    assert forall|i: int, x: int| 0 <= i < call2.len() && 0 <= x < n && on2[x] && #[trigger] in_range(index2, call2, i, x)
        implies low2[call2[i].0 as int] <= low2[x] && reaches(g, call2[i].0, x as usize) by {
        assert(x == start);
        lemma_reaches_refl(g, start);
    }
    assert forall|x: int| 0 <= x < n && on2[x] implies #[trigger] low_witness(g, index2, low2, on2, x) by {
        assert(x == start);
        lemma_reaches_refl(g, start);
        assert(index2[start as int] == low2[x]);
    }
    assert forall|x: int| 0 <= x < n && on2[x] && !#[trigger] is_frame(call2, x) implies low2[x] < index2[x] by {
        assert(x == start);
    }
}

/// The top frame examines its next edge, whose target `w` is unvisited:
/// `w` is visited and a frame is opened for it.
proof fn lemma_sem_visit(
    adj: Seq<Vec<usize>>, index: Seq<usize>, low: Seq<usize>, on_stack: Seq<bool>, comp_id: Seq<usize>,
    scc: Seq<usize>, comps: Seq<Vec<usize>>, call: Seq<(usize, usize)>, ni: usize, base: usize, w: usize,
)
    requires
        tarjan_inv(adj, index, low, on_stack, comp_id, scc, comps, call, ni, base),
        tarjan_sem(vec_views(adj), index, low, on_stack, comp_id, call),
        adjacency_wf(vec_views(adj)),
        call.len() > 0,
        call.last().1 < adj[call.last().0 as int]@.len(),
        w == adj[call.last().0 as int]@[call.last().1 as int],
        index[w as int] == usize::MAX,
    ensures
        tarjan_sem(vec_views(adj), index.update(w as int, ni), low.update(w as int, ni), on_stack.update(w as int, true),
            comp_id, call.update(call.len() - 1, (call.last().0, (call.last().1 + 1) as usize)).push((w, 0usize))),
{
    let g = vec_views(adj);
    let n = adj.len();
    let last = call.len() - 1;
    let v = call[last].0;
    let j0 = call[last].1;
    let index2 = index.update(w as int, ni);
    let low2 = low.update(w as int, ni);
    let on2 = on_stack.update(w as int, true);
    let call2 = call.update(last, (v, (j0 + 1) as usize)).push((w, 0usize));
    assert(g[v as int] == adj[v as int]@);
    assert(w < n);
    assert(!on_stack[w as int]);
    assert(on_stack[v as int]) by { assert(on_stack[call[last].0 as int]); }
    assert(scc.contains(v));
    let pv = choose|p: int| 0 <= p < scc.len() && scc[p] == v;
    assert(low[scc[pv] as int] <= index[scc[pv] as int]);
    assert(index[v as int] < ni);
    assert forall|i: int| 0 <= i < call.len() implies (#[trigger] call2[i]).0 == call[i].0 && call[i].0 != w by {
        assert(on_stack[call[i].0 as int]);
    }
    assert(call2[last + 1] == (w, 0usize));
    assert forall|x: int| 0 <= x < n && is_frame(call, x) implies #[trigger] is_frame(call2, x) by {
        let i = choose|i: int| 0 <= i < call.len() && #[trigger] call[i].0 == x;
        assert(call2[i].0 == x);
    }
    assert forall|i: int, j: int| 0 <= i < call2.len() && 0 <= j < call2[i].1
        implies #[trigger] edge_done(g, index2, low2, on2, call2[i].0 as int, j) by {
        if i < last || (i == last && j < j0) {
            assert(call2[i].1 == call[i].1 || (i == last && j < j0));
            assert(edge_done(g, index, low, on_stack, call[i].0 as int, j));
            assert(g[call[i].0 as int][j] != w);
        } else if i == last {
            assert(j == j0);
            assert(g[v as int][j0 as int] == w);
        }
    }
    assert forall|x: int, j: int| 0 <= x < n && on2[x] && !is_frame(call2, x) && 0 <= j < g[x].len()
        implies #[trigger] edge_done(g, index2, low2, on2, x, j) by {
        assert(x != w) by {
            assert(call2[last + 1].0 == w);
        }
        assert(!is_frame(call, x));
        assert(edge_done(g, index, low, on_stack, x, j));
        assert(g[x][j] != w);
    }
    assert forall|i: int, x: int| 0 <= i < call2.len() && 0 <= x < n && on2[x] && #[trigger] in_range(index2, call2, i, x)
        implies low2[call2[i].0 as int] <= low2[x] && reaches(g, call2[i].0, x as usize) by {
        if x == w {
            if i == last + 1 {
                lemma_reaches_refl(g, w);
            } else {
                assert(index[call2[i + 1].0 as int] < ni);
            }
        } else {
            assert(on_stack[x]);
            assert(index[x] < ni);
            if i == last + 1 {
            } else {
                assert(in_range(index, call, i, x));
            }
        }
    }
    assert forall|i: int| 0 <= i < call2.len() - 1 implies reaches(g, (#[trigger] call2[i]).0, call2[i + 1].0) by {
        if i == last {
            lemma_reaches_edge(g, v, j0 as int);
        } else {
            assert(reaches(g, call[i].0, call[i + 1].0));
        }
    }
    assert forall|x: int| 0 <= x < n && on2[x] implies #[trigger] low_witness(g, index2, low2, on2, x) by {
        if x == w {
            lemma_reaches_refl(g, w);
            assert(index2[w as int] == low2[x]);
        } else {
            assert(low_witness(g, index, low, on_stack, x));
            let y = choose|y: int| 0 <= y < index.len() && on_stack[y] && #[trigger] index[y] == low[x] && reaches(g, x as usize, y as usize);
            assert(y != w);
            assert(index2[y] == low2[x]);
        }
    }
    assert forall|x: int| 0 <= x < n && on2[x] && !#[trigger] is_frame(call2, x) implies low2[x] < index2[x] by {
        assert(x != w) by {
            assert(call2[last + 1].0 == w);
        }
        assert(!is_frame(call, x));
    }
}

/// The top frame examines its next edge, to `w` on the stack with a lower
/// index than its low-link: the low-link drops to it.
proof fn lemma_sem_low(
    adj: Seq<Vec<usize>>, index: Seq<usize>, low: Seq<usize>, on_stack: Seq<bool>, comp_id: Seq<usize>,
    scc: Seq<usize>, comps: Seq<Vec<usize>>, call: Seq<(usize, usize)>, ni: usize, base: usize, w: usize,
)
    requires
        tarjan_inv(adj, index, low, on_stack, comp_id, scc, comps, call, ni, base),
        tarjan_sem(vec_views(adj), index, low, on_stack, comp_id, call),
        adjacency_wf(vec_views(adj)),
        call.len() > 0,
        call.last().1 < adj[call.last().0 as int]@.len(),
        w == adj[call.last().0 as int]@[call.last().1 as int],
        on_stack[w as int],
        index[w as int] < low[call.last().0 as int],
    ensures
        tarjan_sem(vec_views(adj), index, low.update(call.last().0 as int, index[w as int]), on_stack,
            comp_id, call.update(call.len() - 1, (call.last().0, (call.last().1 + 1) as usize))),
{
    let g = vec_views(adj);
    let n = adj.len();
    let last = call.len() - 1;
    let v = call[last].0;
    let j0 = call[last].1;
    let low2 = low.update(v as int, index[w as int]);
    let call2 = call.update(last, (v, (j0 + 1) as usize));
    assert(g[v as int] == adj[v as int]@);
    assert(w < n);
    assert(on_stack[v as int]) by { assert(on_stack[call[last].0 as int]); }
    assert forall|i: int| 0 <= i < call.len() implies (#[trigger] call2[i]).0 == call[i].0 by {}
    assert forall|x: int| 0 <= x < n implies (is_frame(call, x) <==> #[trigger] is_frame(call2, x)) by {
        if is_frame(call, x) {
            let i = choose|i: int| 0 <= i < call.len() && #[trigger] call[i].0 == x;
            assert(call2[i].0 == x);
        }
        if is_frame(call2, x) {
            let i = choose|i: int| 0 <= i < call2.len() && #[trigger] call2[i].0 == x;
            assert(call[i].0 == x);
        }
    }
    assert forall|i: int, j: int| 0 <= i < call2.len() && 0 <= j < call2[i].1
        implies #[trigger] edge_done(g, index, low2, on_stack, call2[i].0 as int, j) by {
        if i == last && j == j0 {
            assert(g[v as int][j0 as int] == w);
        } else {
            assert(edge_done(g, index, low, on_stack, call[i].0 as int, j));
        }
    }
    assert forall|x: int, j: int| 0 <= x < n && on_stack[x] && !is_frame(call2, x) && 0 <= j < g[x].len()
        implies #[trigger] edge_done(g, index, low2, on_stack, x, j) by {
        assert(edge_done(g, index, low, on_stack, x, j));
        assert(x != v) by { assert(call[last].0 == v); }
    }
    assert forall|i: int, x: int| 0 <= i < call2.len() && 0 <= x < n && on_stack[x] && #[trigger] in_range(index, call2, i, x)
        implies low2[call2[i].0 as int] <= low2[x] && reaches(g, call2[i].0, x as usize) by {
        assert(in_range(index, call, i, x));
        if x == v as int && i < last {
            assert(index[call[i + 1].0 as int] <= index[v as int]) by {
                if i + 1 < last {
                    assert(index[call[i + 1].0 as int] < index[call[last].0 as int]);
                }
            }
        }
    }
    assert forall|i: int| 0 <= i < call2.len() - 1 implies reaches(g, (#[trigger] call2[i]).0, call2[i + 1].0) by {
        assert(reaches(g, call[i].0, call[i + 1].0));
    }
    assert forall|x: int| 0 <= x < n && on_stack[x] implies #[trigger] low_witness(g, index, low2, on_stack, x) by {
        if x == v {
            lemma_reaches_edge(g, v, j0 as int);
            assert(index[w as int] == low2[x]);
        } else {
            assert(low_witness(g, index, low, on_stack, x));
            let y = choose|y: int| 0 <= y < index.len() && on_stack[y] && #[trigger] index[y] == low[x] && reaches(g, x as usize, y as usize);
            assert(index[y] == low2[x]);
        }
    }
    assert forall|x: int| 0 <= x < n && on_stack[x] && !#[trigger] is_frame(call2, x) implies low2[x] < index[x] by {
        assert(!is_frame(call, x));
        assert(x != v) by { assert(call[last].0 == v); }
    }
}

/// The top frame examines its next edge and leaves its state as it is.
proof fn lemma_sem_skip(
    adj: Seq<Vec<usize>>, index: Seq<usize>, low: Seq<usize>, on_stack: Seq<bool>, comp_id: Seq<usize>,
    call: Seq<(usize, usize)>, w: usize,
)
    requires
        tarjan_sem(vec_views(adj), index, low, on_stack, comp_id, call),
        call.len() > 0,
        call.last().0 < adj.len(),
        call.last().1 < adj[call.last().0 as int]@.len(),
        w == adj[call.last().0 as int]@[call.last().1 as int],
        index[w as int] != usize::MAX,
        on_stack[w as int] ==> low[call.last().0 as int] <= index[w as int],
    ensures
        tarjan_sem(vec_views(adj), index, low, on_stack,
            comp_id, call.update(call.len() - 1, (call.last().0, (call.last().1 + 1) as usize))),
{
    let g = vec_views(adj);
    let n = adj.len();
    let last = call.len() - 1;
    let v = call[last].0;
    let j0 = call[last].1;
    let call2 = call.update(last, (v, (j0 + 1) as usize));
    assert(g[v as int] == adj[v as int]@);
    assert forall|i: int| 0 <= i < call.len() implies (#[trigger] call2[i]).0 == call[i].0 by {}
    assert forall|x: int| 0 <= x < n implies (is_frame(call, x) <==> #[trigger] is_frame(call2, x)) by {
        if is_frame(call, x) {
            let i = choose|i: int| 0 <= i < call.len() && #[trigger] call[i].0 == x;
            assert(call2[i].0 == x);
        }
        if is_frame(call2, x) {
            let i = choose|i: int| 0 <= i < call2.len() && #[trigger] call2[i].0 == x;
            assert(call[i].0 == x);
        }
    }
    assert forall|i: int, j: int| 0 <= i < call2.len() && 0 <= j < call2[i].1
        implies #[trigger] edge_done(g, index, low, on_stack, call2[i].0 as int, j) by {
        if i == last && j == j0 {
            assert(g[v as int][j0 as int] == w);
        } else {
            assert(edge_done(g, index, low, on_stack, call[i].0 as int, j));
        }
    }
    assert forall|x: int, j: int| 0 <= x < n && on_stack[x] && !is_frame(call2, x) && 0 <= j < g[x].len()
        implies #[trigger] edge_done(g, index, low, on_stack, x, j) by {
        assert(edge_done(g, index, low, on_stack, x, j));
    }
    assert forall|i: int, x: int| 0 <= i < call2.len() && 0 <= x < n && on_stack[x] && #[trigger] in_range(index, call2, i, x)
        implies low[call2[i].0 as int] <= low[x] && reaches(g, call2[i].0, x as usize) by {
        assert(in_range(index, call, i, x));
    }
    assert forall|i: int| 0 <= i < call2.len() - 1 implies reaches(g, (#[trigger] call2[i]).0, call2[i + 1].0) by {
        assert(reaches(g, call[i].0, call[i + 1].0));
    }
    assert forall|x: int| 0 <= x < n && on_stack[x] && !#[trigger] is_frame(call2, x) implies low[x] < index[x] by {
        assert(!is_frame(call, x));
    }
}

/// The top frame `v` has examined every edge and is not a root: it stays
/// on the stack, and its parent takes its low-link when lower.
proof fn lemma_sem_nonroot(
    adj: Seq<Vec<usize>>, index: Seq<usize>, low: Seq<usize>, on_stack: Seq<bool>, comp_id: Seq<usize>,
    scc: Seq<usize>, comps: Seq<Vec<usize>>, call: Seq<(usize, usize)>, ni: usize, base: usize,
)
    requires
        tarjan_inv(adj, index, low, on_stack, comp_id, scc, comps, call, ni, base),
        tarjan_sem(vec_views(adj), index, low, on_stack, comp_id, call),
        adjacency_wf(vec_views(adj)),
        call.len() > 1,
        call.last().1 >= adj[call.last().0 as int]@.len(),
        low[call.last().0 as int] != index[call.last().0 as int],
    ensures
        ({
            let v = call.last().0;
            let call2 = call.drop_last();
            let p = call2.last().0;
            let low2 = if low[v as int] < low[p as int] { low.update(p as int, low[v as int]) } else { low };
            tarjan_sem(vec_views(adj), index, low2, on_stack, comp_id, call2)
        }),
{
    let g = vec_views(adj);
    let n = adj.len();
    let last = call.len() - 1;
    let pl = last - 1;
    let v = call[last].0;
    let p = call[pl].0;
    let call2 = call.drop_last();
    let low2 = if low[v as int] < low[p as int] { low.update(p as int, low[v as int]) } else { low };
    assert(g[v as int] == adj[v as int]@);
    assert(on_stack[v as int]) by { assert(on_stack[call[last].0 as int]); }
    assert(scc.contains(v));
    let pv = choose|q: int| 0 <= q < scc.len() && scc[q] == v;
    assert(low[scc[pv] as int] <= index[scc[pv] as int]);
    assert(low[v as int] < index[v as int]);
    assert(index[call[pl].0 as int] < index[call[last].0 as int]);
    assert(call2.last() == call[pl]);
    assert forall|i: int| 0 <= i < call2.len() implies (#[trigger] call2[i]) == call[i] by {}
    assert forall|i: int| 0 <= i < last implies index[(#[trigger] call[i]).0 as int] <= index[p as int] by {
        if i < pl {
            assert(index[call[i].0 as int] < index[call[pl].0 as int]);
        }
    }
    assert forall|x: int| 0 <= x < n && is_frame(call2, x) implies #[trigger] is_frame(call, x) && x != v by {
        let i = choose|i: int| 0 <= i < call2.len() && #[trigger] call2[i].0 == x;
        assert(call[i].0 == x);
        assert(index[x] <= index[p as int]);
    }
    assert forall|x: int| 0 <= x < n && is_frame(call, x) && x != v implies #[trigger] is_frame(call2, x) by {
        let i = choose|i: int| 0 <= i < call.len() && #[trigger] call[i].0 == x;
        assert(i != last);
        assert(call2[i].0 == x);
    }
    assert forall|i: int, j: int| 0 <= i < call2.len() && 0 <= j < call2[i].1
        implies #[trigger] edge_done(g, index, low2, on_stack, call2[i].0 as int, j) by {
        assert(edge_done(g, index, low, on_stack, call[i].0 as int, j));
    }
    assert forall|x: int, j: int| 0 <= x < n && on_stack[x] && !is_frame(call2, x) && 0 <= j < g[x].len()
        implies #[trigger] edge_done(g, index, low2, on_stack, x, j) by {
        if x == v {
            assert(edge_done(g, index, low, on_stack, call[last].0 as int, j));
            assert(v != p);
        } else {
            assert(!is_frame(call, x));
            assert(edge_done(g, index, low, on_stack, x, j));
            assert(x != p) by { assert(call2[pl].0 == p); }
        }
    }
    assert forall|i: int, x: int| 0 <= i < call2.len() && 0 <= x < n && on_stack[x] && #[trigger] in_range(index, call2, i, x)
        implies low2[call2[i].0 as int] <= low2[x] && reaches(g, call2[i].0, x as usize) by {
        if i < pl {
            assert(in_range(index, call, i, x));
            assert(x != p) by {
                assert(index[call[i + 1].0 as int] <= index[p as int]);
            }
            assert(call[i].0 != p) by {
                assert(index[call[i].0 as int] < index[call[pl].0 as int]);
            }
        } else {
            assert(i == pl);
            if index[x] < index[v as int] {
                assert(in_range(index, call, pl, x));
            } else {
                assert(in_range(index, call, last, x));
                assert(x != p);
                assert(reaches(g, call[pl].0, call[pl + 1].0));
                lemma_reaches_trans(g, p, v, x as usize);
            }
        }
    }
    assert forall|i: int| 0 <= i < call2.len() - 1 implies reaches(g, (#[trigger] call2[i]).0, call2[i + 1].0) by {
        assert(reaches(g, call[i].0, call[i + 1].0));
    }
    assert forall|x: int| 0 <= x < n && on_stack[x] implies #[trigger] low_witness(g, index, low2, on_stack, x) by {
        if x == p && low[v as int] < low[p as int] {
            assert(low_witness(g, index, low, on_stack, v as int));
            let y = choose|y: int| 0 <= y < index.len() && on_stack[y] && #[trigger] index[y] == low[v as int] && reaches(g, v, y as usize);
            assert(reaches(g, call[pl].0, call[pl + 1].0));
            lemma_reaches_trans(g, p, v, y as usize);
            assert(index[y] == low2[x]);
        } else {
            assert(low_witness(g, index, low, on_stack, x));
            let y = choose|y: int| 0 <= y < index.len() && on_stack[y] && #[trigger] index[y] == low[x] && reaches(g, x as usize, y as usize);
            assert(index[y] == low2[x]);
        }
    }
    assert forall|x: int| 0 <= x < n && on_stack[x] && !#[trigger] is_frame(call2, x) implies low2[x] < index[x] by {
        if x != v {
            assert(!is_frame(call, x));
            assert(x != p) by { assert(call2[pl].0 == p); }
        }
    }
}

/// Every node above root `v` on the stack reaches `v`.
proof fn lemma_sem_root_reach(
    adj: Seq<Vec<usize>>, index: Seq<usize>, low: Seq<usize>, on_stack: Seq<bool>, comp_id: Seq<usize>,
    scc: Seq<usize>, comps: Seq<Vec<usize>>, call: Seq<(usize, usize)>, ni: usize, base: usize, x: int,
)
    requires
        tarjan_inv(adj, index, low, on_stack, comp_id, scc, comps, call, ni, base),
        tarjan_sem(vec_views(adj), index, low, on_stack, comp_id, call),
        call.len() > 0,
        low[call.last().0 as int] == index[call.last().0 as int],
        0 <= x < adj.len(),
        on_stack[x],
        index[x] >= index[call.last().0 as int],
    ensures
        reaches(vec_views(adj), x as usize, call.last().0),
    decreases index[x],
{
    let g = vec_views(adj);
    let last = call.len() - 1;
    let v = call[last].0;
    if x == v as int {
        lemma_reaches_refl(g, v);
    } else {
        assert(on_stack[v as int]) by { assert(on_stack[call[last].0 as int]); }
        lemma_on_stack_distinct(adj, index, low, on_stack, comp_id, scc, comps, call, ni, base, x, v as int);
        assert(!is_frame(call, x)) by {
            if is_frame(call, x) {
                let i = choose|i: int| 0 <= i < call.len() && #[trigger] call[i].0 == x;
                if i < last {
                    assert(index[call[i].0 as int] < index[call[last].0 as int]);
                }
            }
        }
        assert(low[x] < index[x]);
        assert(low_witness(g, index, low, on_stack, x));
        let y = choose|y: int| 0 <= y < index.len() && on_stack[y] && #[trigger] index[y] == low[x] && reaches(g, x as usize, y as usize);
        assert(in_range(index, call, last, x));
        lemma_sem_root_reach(adj, index, low, on_stack, comp_id, scc, comps, call, ni, base, y);
        lemma_reaches_trans(g, x as usize, y as usize, v);
    }
}

/// Root `v` has examined every edge; the nodes from `v` up the stack become
/// a component.
proof fn lemma_sem_pop(
    adj: Seq<Vec<usize>>, index: Seq<usize>, low: Seq<usize>, on0: Seq<bool>, ci0: Seq<usize>,
    scc: Seq<usize>, comps: Seq<Vec<usize>>, call: Seq<(usize, usize)>, ni: usize, base: usize,
    on1: Seq<bool>, ci1: Seq<usize>,
)
    requires
        tarjan_inv(adj, index, low, on0, ci0, scc, comps, call, ni, base),
        tarjan_sem(vec_views(adj), index, low, on0, ci0, call),
        adjacency_wf(vec_views(adj)),
        call.len() > 0,
        call.last().1 >= adj[call.last().0 as int]@.len(),
        low[call.last().0 as int] == index[call.last().0 as int],
        on1.len() == adj.len(),
        ci1.len() == adj.len(),
        forall|x: int| 0 <= x < adj.len() && on1[x] ==> on0[x] && index[x] < index[call.last().0 as int],
        forall|x: int| 0 <= x < adj.len() && on0[x] && index[x] < index[call.last().0 as int] ==> on1[x],
        forall|x: int| 0 <= x < adj.len() && on0[x] && index[x] >= index[call.last().0 as int] ==> ci1[x] == comps.len(),
        forall|x: int| 0 <= x < adj.len() && ci0[x] != usize::MAX ==> ci1[x] == ci0[x],
        forall|x: int| 0 <= x < adj.len() && ci0[x] == usize::MAX && ci1[x] != usize::MAX
            ==> ci1[x] == comps.len() && on0[x] && index[x] >= index[call.last().0 as int],
    ensures
        tarjan_sem(vec_views(adj), index, low, on1, ci1, call.drop_last()),
{
    let g = vec_views(adj);
    let n = adj.len();
    let last = call.len() - 1;
    let v = call[last].0;
    let c = comps.len();
    let call2 = call.drop_last();
    assert(g[v as int] == adj[v as int]@);
    assert(on0[v as int]) by { assert(on0[call[last].0 as int]); }
    assert forall|i: int| 0 <= i < call2.len() implies (#[trigger] call2[i]) == call[i] by {}
    assert forall|i: int| 0 <= i < last implies index[(#[trigger] call[i]).0 as int] < index[v as int] by {}
    assert forall|x: int| 0 <= x < n && is_frame(call2, x) implies #[trigger] is_frame(call, x) by {
        let i = choose|i: int| 0 <= i < call2.len() && #[trigger] call2[i].0 == x;
        assert(call[i].0 == x);
    }
    // a node above the root is no frame
    assert forall|x: int| 0 <= x < n && on0[x] && index[x] >= index[v as int] && x != v as int implies !#[trigger] is_frame(call, x) by {
        lemma_on_stack_distinct(adj, index, low, on0, ci0, scc, comps, call, ni, base, x, v as int);
        if is_frame(call, x) {
            let i = choose|i: int| 0 <= i < call.len() && #[trigger] call[i].0 == x;
            if i < last {
                assert(index[call[i].0 as int] < index[v as int]);
            }
        }
    }
    assert forall|x: int| 0 <= x < n && on1[x] && is_frame(call, x) implies #[trigger] is_frame(call2, x) by {
        let i = choose|i: int| 0 <= i < call.len() && #[trigger] call[i].0 == x;
        assert(i != last);
        assert(call2[i].0 == x);
    }
    assert forall|i: int, j: int| 0 <= i < call2.len() && 0 <= j < call2[i].1
        implies #[trigger] edge_done(g, index, low, on1, call2[i].0 as int, j) by {
        assert(edge_done(g, index, low, on0, call[i].0 as int, j));
    }
    assert forall|x: int, j: int| 0 <= x < n && on1[x] && !is_frame(call2, x) && 0 <= j < g[x].len()
        implies #[trigger] edge_done(g, index, low, on1, x, j) by {
        assert(!is_frame(call, x));
        assert(edge_done(g, index, low, on0, x, j));
    }
    // edges out of the new component stay in it or go to earlier ones
    assert forall|x: int, j: int| 0 <= x < n && ci1[x] != usize::MAX && 0 <= j < g[x].len()
        implies ci1[#[trigger] g[x][j] as int] != usize::MAX && ci1[g[x][j] as int] <= ci1[x] by {
        let w = g[x][j] as int;
        assert(w < n);
        if ci0[x] != usize::MAX {
            assert(ci0[w] != usize::MAX && ci0[w] <= ci0[x]);
        } else {
            assert(on0[x] && index[x] >= index[v as int]);
            if x == v as int {
                assert(edge_done(g, index, low, on0, call[last].0 as int, j));
            } else {
                assert(!is_frame(call, x));
                assert(edge_done(g, index, low, on0, x, j));
            }
            assert(index[w] != usize::MAX);
            if on0[w] {
                assert(in_range(index, call, last, x));
                assert(low[v as int] <= low[x]);
            } else {
                assert(ci0[w] != usize::MAX);
                assert(ci0[w] < c);
            }
        }
    }
    assert forall|i: int, x: int| 0 <= i < call2.len() && 0 <= x < n && on1[x] && #[trigger] in_range(index, call2, i, x)
        implies low[call2[i].0 as int] <= low[x] && reaches(g, call2[i].0, x as usize) by {
        assert(in_range(index, call, i, x));
    }
    assert forall|i: int| 0 <= i < call2.len() - 1 implies reaches(g, (#[trigger] call2[i]).0, call2[i + 1].0) by {
        assert(reaches(g, call[i].0, call[i + 1].0));
    }
    assert forall|x: int| 0 <= x < n && on1[x] implies #[trigger] low_witness(g, index, low, on1, x) by {
        assert(low_witness(g, index, low, on0, x));
        let y = choose|y: int| 0 <= y < index.len() && on0[y] && #[trigger] index[y] == low[x] && reaches(g, x as usize, y as usize);
        assert(scc.contains(x as usize));
        let px = choose|q: int| 0 <= q < scc.len() && scc[q] == x as usize;
        assert(low[scc[px] as int] <= index[scc[px] as int]);
        assert(on1[y]);
    }
    assert forall|x: int| 0 <= x < n && on1[x] && !#[trigger] is_frame(call2, x) implies low[x] < index[x] by {
        if is_frame(call, x) {
            assert(is_frame(call2, x));
        }
    }
    assert forall|x: int, y: int| #![trigger ci1[x], ci1[y]]
        0 <= x < n && 0 <= y < n && ci1[x] != usize::MAX && ci1[x] == ci1[y]
        implies reaches(g, x as usize, y as usize) by {
        if ci0[x] != usize::MAX {
            if ci0[y] == usize::MAX {
                assert(ci1[y] == c);
                assert(ci0[x] < c);
            }
        } else {
            assert(ci1[x] == c);
            if ci0[y] != usize::MAX {
                assert(ci0[y] < c);
            }
            assert(on0[y] && index[y] >= index[v as int]);
            lemma_sem_root_reach(adj, index, low, on0, ci0, scc, comps, call, ni, base, x);
            assert(in_range(index, call, last, y));
            lemma_reaches_trans(g, x as usize, v, y as usize);
        }
    }
}

/// Computes the strongly-connected components of `adj` (downstream
/// adjacency over nodes `0..n`).
///
/// Returns `(comp_id, comps)` where `comp_id[node]` is the node's component
/// index and `comps` lists each component's members, components in
/// topological order of the condensation (sources before sinks).
pub fn tarjan_scc(adj: &Vec<Vec<usize>>, n: usize) -> (res: (Vec<usize>, Vec<Vec<usize>>))
    requires
        n == adj@.len(),
        n < usize::MAX,
        adjacency_wf(vec_views(adj@)),
    ensures
        is_partition(res.0@, res.1@, n as nat),
        forall|x: int, j: int| 0 <= x < n && 0 <= j < vec_views(adj@)[x].len()
            ==> res.0@[x] <= res.0@[#[trigger] vec_views(adj@)[x][j] as int],
        forall|x: int, y: int| 0 <= x < n && 0 <= y < n ==> (res.0@[x] == res.0@[y] <==> (
            reaches(vec_views(adj@), x as usize, y as usize) && reaches(vec_views(adj@), y as usize, x as usize))),
{
    let ghost g = vec_views(adj@);
    let mut index: Vec<usize> = Vec::new();
    let mut low: Vec<usize> = Vec::new();
    let mut on_stack: Vec<bool> = Vec::new();
    let mut comp_id: Vec<usize> = Vec::new();
    let mut i: usize = 0;
    while i < n
        invariant
            i <= n,
            index@.len() == i,
            low@.len() == i,
            on_stack@.len() == i,
            comp_id@.len() == i,
            forall|x: int| 0 <= x < i ==> index@[x] == usize::MAX && comp_id@[x] == usize::MAX
                && !on_stack@[x],
        decreases n - i,
    {
        index.push(usize::MAX);
        low.push(0);
        on_stack.push(false);
        comp_id.push(usize::MAX);
        i = i + 1;
    }
    let mut scc_stack: Vec<usize> = Vec::new();
    let mut comps: Vec<Vec<usize>> = Vec::new();
    let mut next_index: usize = 0;
    proof {
        lemma_count_unvisited_all(index@);
        assert(tarjan_sem(g, index@, low@, on_stack@, comp_id@, Seq::empty()));
    }

    let mut start: usize = 0;
    while start < n
        invariant
            n == adj@.len(),
            adjacency_wf(vec_views(adj@)),
            start <= n,
            n < usize::MAX,
            tarjan_inv(adj@, index@, low@, on_stack@, comp_id@, scc_stack@, comps@, Seq::empty(), next_index, 0),
            g == vec_views(adj@),
            tarjan_sem(g, index@, low@, on_stack@, comp_id@, Seq::empty()),
            scc_stack@.len() == 0,
            forall|x: int| 0 <= x < start ==> index@[x] != usize::MAX,
        decreases n - start,
    {
        if index[start] != usize::MAX {
            start = start + 1;
            continue;
        }
        let base = next_index;
        let mut call_stack: Vec<(usize, usize)> = Vec::new();
        // visit `start`
        proof {
            assert(scc_stack@ =~= Seq::<usize>::empty());
            lemma_count_unvisited_update(index@, start as int, next_index);
            lemma_count_unvisited_le(index@.update(start as int, next_index));
            lemma_visit_start(adj@, index@, low@, on_stack@, comp_id@, comps@, next_index, start);
            lemma_sem_start(adj@, index@, low@, on_stack@, comp_id@, comps@, next_index, start);
        }
        index.set(start, next_index);
        low.set(start, next_index);
        next_index = next_index + 1;
        scc_stack.push(start);
        on_stack.set(start, true);
        call_stack.push((start, 0));
        proof {
            assert(scc_stack@ =~= seq![start]);
            assert(call_stack@ =~= seq![(start, 0usize)]);
        }
        while call_stack.len() > 0
            invariant
                n == adj@.len(),
                adjacency_wf(vec_views(adj@)),
                start < n,
                n < usize::MAX,
                tarjan_inv(adj@, index@, low@, on_stack@, comp_id@, scc_stack@, comps@, call_stack@, next_index, base),
                g == vec_views(adj@),
                tarjan_sem(g, index@, low@, on_stack@, comp_id@, call_stack@),
                call_stack@.len() > 0 ==> call_stack@[0].0 == start,
                call_stack@.len() == 0 ==> scc_stack@.len() == 0,
                forall|x: int| 0 <= x < start ==> index@[x] != usize::MAX,
                index@[start as int] != usize::MAX,
                base <= next_index,
            decreases count_unvisited(index@), call_remaining(adj@, call_stack@),
        {
            let top = call_stack.len() - 1;
            let (v, cursor) = call_stack[top];
            if cursor < adj[v].len() {
                let w = adj[v][cursor];
                proof {
                    assert(vec_views(adj@)[v as int] == adj@[v as int]@);
                    assert(w == vec_views(adj@)[v as int][cursor as int]);
                }
                let ghost ck = call_stack@;
                call_stack.set(top, (v, cursor + 1));
                proof {
                    lemma_step_cursor(adj@, index@, low@, on_stack@, comp_id@, scc_stack@, comps@, ck, next_index, base);
                    assert(call_stack@.drop_last() =~= ck.drop_last());
                }
                if index[w] == usize::MAX {
                    proof {
                        lemma_count_unvisited_update(index@, w as int, next_index);
                        lemma_count_unvisited_le(index@.update(w as int, next_index));
                        lemma_step_visit(adj@, index@, low@, on_stack@, comp_id@, scc_stack@, comps@, call_stack@, next_index, base, w);
                        lemma_sem_visit(adj@, index@, low@, on_stack@, comp_id@, scc_stack@, comps@, ck, next_index, base, w);
                    }
                    index.set(w, next_index);
                    low.set(w, next_index);
                    next_index = next_index + 1;
                    scc_stack.push(w);
                    on_stack.set(w, true);
                    call_stack.push((w, 0));
                } else if on_stack[w] && index[w] < low[v] {
                    proof {
                        lemma_step_low(adj@, index@, low@, on_stack@, comp_id@, scc_stack@, comps@, call_stack@, next_index, base, v, w);
                        lemma_sem_low(adj@, index@, low@, on_stack@, comp_id@, scc_stack@, comps@, ck, next_index, base, w);
                    }
                    low.set(v, index[w]);
                } else {
                    proof {
                        lemma_sem_skip(adj@, index@, low@, on_stack@, comp_id@, ck, w);
                    }
                }
            } else {
                let ghost ck = call_stack@;
                proof {
                    assert(on_stack@[v as int]) by {
                        assert(on_stack@[call_stack@[top as int].0 as int]);
                    }
                    assert(scc_stack@.contains(v));
                    let pv = choose|p: int| 0 <= p < scc_stack@.len() && scc_stack@[p] == v;
                    assert(base <= low@[scc_stack@[pv] as int]);
                }
                if low[v] == index[v] {
                    let mut comp: Vec<usize> = Vec::new();
                    let ghost c = comps@.len();
                    let ghost on0 = on_stack@;
                    let ghost ci0 = comp_id@;
                    let ghost scc0 = scc_stack@;
                    let ghost comps0 = comps@;
                    proof {
                        lemma_pop_start(adj@, index@, low@, on_stack@, comp_id@, scc_stack@, comps@, call_stack@, next_index, base, v);
                        assert(tarjan_inv(adj@, index@, low@, on0, ci0, scc0, comps0, ck, next_index, base));
                        assert(tarjan_sem(g, index@, low@, on0, ci0, ck));
                    }
                    loop
                        invariant_except_break
                            scc_stack@.contains(v),
                        invariant
                            n == adj@.len(),
                            comps@.len() == c,
                            call_stack@ == ck,
                            ck.len() > 0,
                            ck.last().0 == v,
                            ck.last().1 >= adj@[v as int]@.len(),
                            comp_pop_inv(adj@, index@, low@, on_stack@, comp_id@, scc_stack@, comps@, comp@, ck, next_index, base, v),
                            on0.len() == n,
                            ci0.len() == n,
                            forall|x: int| 0 <= x < n && on_stack@[x] ==> on0[x],
                            forall|x: int| 0 <= x < n && ci0[x] != usize::MAX ==> comp_id@[x] == ci0[x],
                            forall|x: int| 0 <= x < n && on0[x] && !on_stack@[x] ==> comp_id@[x] == c,
                            forall|x: int| 0 <= x < n && ci0[x] == usize::MAX && comp_id@[x] != usize::MAX ==> on0[x],
                        ensures
                            comp_pop_done(adj@, index@, low@, on_stack@, comp_id@, scc_stack@, comps@, comp@, ck, next_index, base, v),
                        decreases scc_stack@.len(),
                    {
                        let ghost sk = scc_stack@;
                        let ghost oi = on_stack@;
                        let ghost ci = comp_id@;
                        let ghost cp = comp@;
                        proof {
                            assert(sk.drop_last().push(sk.last()) =~= sk);
                        }
                        proof {
                            assert(sk.contains(sk.last()));
                            assert(oi[sk.last() as int]);
                            assert(ci[sk.last() as int] == usize::MAX);
                        }
                        let w = scc_stack.pop().unwrap();
                        on_stack.set(w, false);
                        comp_id.set(w, comps.len());
                        comp.push(w);
                        proof {
                            lemma_pop_step(adj@, index@, low@, oi, ci, sk, comps@, cp, ck, next_index, base, v);
                        }
                        if w == v {
                            break;
                        }
                    }
                    proof {
                        lemma_pop_finish(adj@, index@, low@, on_stack@, comp_id@, scc_stack@, comps@, comp@, ck, next_index, base, v);
                    }
                    comps.push(comp);
                    call_stack.pop();
                    proof {
                        assert(call_stack@ =~= ck.drop_last());
                        let vi = index@[v as int];
                        assert forall|x: int| 0 <= x < n && on_stack@[x] implies on0[x] && index@[x] < vi by {
                            assert(scc_stack@.contains(x as usize));
                            let q = choose|q: int| 0 <= q < scc_stack@.len() && scc_stack@[q] == x as usize;
                            assert(index@[scc_stack@[q] as int] < vi);
                        }
                        assert forall|x: int| 0 <= x < n && on0[x] && index@[x] < vi implies on_stack@[x] by {
                            if !on_stack@[x] {
                                assert(comp_id@[x] == c);
                                assert(comp@.contains(x as usize));
                                let m = choose|m: int| 0 <= m < comp@.len() && comp@[m] == x as usize;
                                assert(index@[comp@[m] as int] >= vi);
                            }
                        }
                        assert forall|x: int| 0 <= x < n && on0[x] && index@[x] >= vi implies comp_id@[x] == comps0.len() by {
                            if on_stack@[x] {
                                assert(scc_stack@.contains(x as usize));
                                let q = choose|q: int| 0 <= q < scc_stack@.len() && scc_stack@[q] == x as usize;
                                assert(index@[scc_stack@[q] as int] < vi);
                            }
                        }
                        assert forall|x: int| 0 <= x < n && ci0[x] == usize::MAX && comp_id@[x] != usize::MAX
                            implies comp_id@[x] == comps0.len() && on0[x] && index@[x] >= vi by {
                            assert(on0[x]);
                            assert(!on_stack@[x]);
                            assert(comp_id@[x] == c);
                            assert(comp@.contains(x as usize));
                            let m = choose|m: int| 0 <= m < comp@.len() && comp@[m] == x as usize;
                            assert(index@[comp@[m] as int] >= vi);
                        }
                        lemma_sem_pop(adj@, index@, low@, on0, ci0, scc0, comps0, ck, next_index, base, on_stack@, comp_id@);
                    }
                } else {
                    proof {
                        lemma_finish_nonroot(adj@, index@, low@, on_stack@, comp_id@, scc_stack@, comps@, ck, next_index, base, start);
                    }
                    let ghost low0 = low@;
                    call_stack.pop();
                    proof {
                        assert(call_stack@ =~= ck.drop_last());
                    }
                    if call_stack.len() > 0 {
                        let parent = call_stack[call_stack.len() - 1].0;
                        if low[v] < low[parent] {
                            proof {
                                lemma_parent_low(adj@, index@, low@, on_stack@, comp_id@, scc_stack@, comps@, call_stack@, next_index, base, v);
                            }
                            low.set(parent, low[v]);
                        }
                    }
                    proof {
                        lemma_sem_nonroot(adj@, index@, low0, on_stack@, comp_id@, scc_stack@, comps@, ck, next_index, base);
                    }
                }
            }
        }
        proof {
            assert(call_stack@ =~= Seq::<(usize, usize)>::empty());
            assert(scc_stack@ =~= Seq::<usize>::empty());
        }
        start = start + 1;
    }

    // Tarjan finalizes components in reverse topological order; flip them.
    proof {
        lemma_all_assigned(adj@, index@, low@, on_stack@, comp_id@, scc_stack@, comps@, next_index);
    }
    let total = comps.len();
    let ghost found = comps@;
    let mut ordered: Vec<Vec<usize>> = Vec::new();
    while comps.len() > 0
        invariant
            comps@.len() + ordered@.len() == total,
            total == found.len(),
            forall|i: int| 0 <= i < comps@.len() ==> comps@[i] == found[i],
            forall|i: int| 0 <= i < ordered@.len() ==> ordered@[i] == found[total - 1 - i],
        decreases comps.len(),
    {
        let c = comps.pop().unwrap();
        ordered.push(c);
    }
    let mut ids: Vec<usize> = Vec::new();
    let mut x: usize = 0;
    while x < n
        invariant
            x <= n,
            n == comp_id@.len(),
            total == found.len(),
            forall|y: int| 0 <= y < n ==> (#[trigger] comp_id@[y]) < total,
            ids@.len() == x,
            forall|y: int| 0 <= y < x ==> ids@[y] == total - 1 - comp_id@[y],
        decreases n - x,
    {
        let id = comp_id[x];
        ids.push(total - 1 - id);
        x = x + 1;
    }
    proof {
        lemma_reversed_partition(comp_id@, found, ids@, ordered@, n as nat);
        let ids_s = ids@;
        assert(tarjan_sem(g, index@, low@, on_stack@, comp_id@, Seq::empty()));
        assert forall|x: int, j: int| 0 <= x < n && 0 <= j < g[x].len()
            implies ids_s[x] <= ids_s[#[trigger] g[x][j] as int] by {
            let w = g[x][j] as int;
            assert(comp_id@[x] < total);
            assert(comp_id@[w] <= comp_id@[x]);
        }
        assert forall|x: int, y: int| 0 <= x < n && 0 <= y < n implies (ids_s[x] == ids_s[y] <==> (
            reaches(g, x as usize, y as usize) && reaches(g, y as usize, x as usize))) by {
            assert(comp_id@[x] < total && comp_id@[y] < total);
            if ids_s[x] == ids_s[y] {
                assert(comp_id@[x] == comp_id@[y]);
                assert(reaches(g, x as usize, y as usize));
                assert(reaches(g, y as usize, x as usize));
            }
            if reaches(g, x as usize, y as usize) && reaches(g, y as usize, x as usize) {
                let p = choose|p: Seq<usize>| #[trigger] is_path(g, p) && p[0] == x as usize && p.last() == y as usize;
                let q = choose|q: Seq<usize>| #[trigger] is_path(g, q) && q[0] == y as usize && q.last() == x as usize;
                lemma_path_labels(g, ids_s, p);
                lemma_path_labels(g, ids_s, q);
            }
        }
    }
    (ids, ordered)
}

} // verus!
