//! Processing order for a signal graph: depth-first reverse post-order over
//! the downstream adjacency, detecting feedback (back) edges on the way.

use vstd::prelude::*;
use crate::scc::reaches;

verus! {

/// The adjacency lists of a graph held as vectors.
pub open spec fn vec_views(v: Seq<Vec<usize>>) -> Seq<Seq<usize>> {
    v.map_values(|x: Vec<usize>| x@)
}

/// Every successor index is a node of the graph.
pub open spec fn adjacency_wf(adj: Seq<Seq<usize>>) -> bool {
    forall|u: int, j: int|
        0 <= u < adj.len() && 0 <= j < adj[u].len() ==> (#[trigger] adj[u][j]) < adj.len()
}

/// `order` lists each node `0..n` exactly once.
pub open spec fn is_permutation(order: Seq<usize>, n: nat) -> bool {
    &&& order.len() == n
    &&& forall|i: int| 0 <= i < order.len() ==> (#[trigger] order[i]) < n
    &&& forall|i: int, j: int| 0 <= i < j < order.len() ==> order[i] != order[j]
    &&& forall|x: usize| x < n ==> #[trigger] order.contains(x)
}

/// No edge of `adj` points from a node to one at the same or an earlier
/// position of `order`: sources come before everything they feed.
pub open spec fn is_topological(adj: Seq<Seq<usize>>, order: Seq<usize>) -> bool {
    forall|i: int, k: int|
        #![trigger order[i], order[k]]
        0 <= i <= k < order.len() ==> !adj[order[k] as int].contains(order[i])
}

/// A path of edges from `path[0]` to `path.last()`.
pub open spec fn is_path(adj: Seq<Seq<usize>>, path: Seq<usize>) -> bool {
    &&& path.len() >= 1
    &&& forall|i: int| 0 <= i < path.len() ==> (#[trigger] path[i]) < adj.len()
    &&& forall|i: int|
        0 <= i < path.len() - 1 ==> adj[path[i] as int].contains(#[trigger] path[i + 1])
}

/// The graph has a cycle: a path that returns to its first node along at
/// least one edge.
pub open spec fn has_cycle(adj: Seq<Seq<usize>>) -> bool {
    exists|path: Seq<usize>|
        #[trigger] is_path(adj, path) && path.len() >= 2 && path[0] == path.last()
}

/// Stack frames `(node, next successor cursor)` of the iterative search.
spec fn frames_wf(adj: Seq<Seq<usize>>, stack: Seq<(usize, usize)>) -> bool {
    &&& forall|i: int| 0 <= i < stack.len() ==> (#[trigger] stack[i]).0 < adj.len()
    &&& forall|i: int|
        0 <= i < stack.len() ==> (#[trigger] stack[i]).1 <= adj[stack[i].0 as int].len()
    &&& forall|i: int, k: int| 0 <= i < k < stack.len() ==> stack[i].0 != stack[k].0
    // the stack is a path: each frame's node is the successor that the frame
    // below it just examined
    &&& forall|i: int|
        0 <= i < stack.len() - 1 ==> (#[trigger] stack[i]).1 > 0
            && adj[stack[i].0 as int][stack[i].1 - 1] == stack[i + 1].0
}

spec fn on_stack(stack: Seq<(usize, usize)>, x: usize) -> bool {
    exists|k: int| 0 <= k < stack.len() && (#[trigger] stack[k]).0 == x
}

/// Depth-first search state invariant.
spec fn dfs_inv(
    adj: Seq<Seq<usize>>,
    state: Seq<u8>,
    stack: Seq<(usize, usize)>,
    post: Seq<usize>,
    fin: Seq<int>,
    back: bool,
) -> bool {
    let n = adj.len();
    &&& state.len() == n
    &&& fin.len() == n
    &&& frames_wf(adj, stack)
    &&& forall|x: int| 0 <= x < n ==> (#[trigger] state[x]) <= 2
    &&& forall|x: usize| x < n ==> (state[x as int] == 1 <==> #[trigger] on_stack(stack, x))
    &&& forall|p: int| 0 <= p < post.len() ==> (#[trigger] post[p]) < n
    &&& forall|p: int| 0 <= p < post.len() ==> state[post[p] as int] == 2
    &&& forall|p: int| 0 <= p < post.len() ==> fin[#[trigger] post[p] as int] == p
    &&& forall|x: int|
        0 <= x < n && state[x] == 2 ==> 0 <= #[trigger] fin[x] < post.len() && post[fin[x]] == x
    // every successor of a finished node finished before it, unless a back
    // edge was seen
    &&& forall|p: int, j: int|
        0 <= p < post.len() && 0 <= j < adj[post[p] as int].len() ==> back || {
            let v = #[trigger] adj[post[p] as int][j];
            state[v as int] == 2 && fin[v as int] < p
        }
    // every successor already examined from a frame has finished, is on the
    // stack above that frame, or was a back edge
    &&& forall|i: int, j: int|
        0 <= i < stack.len() && 0 <= j < stack[i].1 ==> back || {
            let v = #[trigger] adj[stack[i].0 as int][j];
            state[v as int] == 2 || exists|k: int| i < k < stack.len() && stack[k].0 == v
        }
    // a back edge closes a cycle
    &&& back ==> has_cycle(adj)
}

proof fn lemma_stack_path_cycle(adj: Seq<Seq<usize>>, stack: Seq<(usize, usize)>, k: int, v: usize)
    requires
        frames_wf(adj, stack),
        stack.len() >= 1,
        0 <= k < stack.len(),
        stack[k].0 == v,
        adj[stack.last().0 as int].contains(v),
    ensures
        has_cycle(adj),
{
    let top = stack.len() - 1;
    let nodes = Seq::new((top - k + 1) as nat, |i: int| stack[k + i].0);
    let path = nodes.push(v);
    assert(is_path(adj, path)) by {
        assert forall|i: int| 0 <= i < path.len() - 1 implies adj[path[i] as int].contains(
            #[trigger] path[i + 1],
        ) by {
            if i < top - k {
                let f = stack[k + i];
                assert(adj[f.0 as int][f.1 - 1] == stack[k + i + 1].0);
            }
        }
    }
    assert(path[0] == path.last());
}

spec fn count_eq(s: Seq<u8>, v: u8) -> nat
    decreases s.len(),
{
    if s.len() == 0 {
        0
    } else {
        count_eq(s.drop_last(), v) + if s.last() == v { 1nat } else { 0nat }
    }
}

proof fn lemma_count_update(s: Seq<u8>, i: int, w: u8, v: u8)
    requires
        0 <= i < s.len(),
    ensures
        count_eq(s.update(i, w), v) + (if s[i] == v { 1int } else { 0int })
            == count_eq(s, v) + (if w == v { 1int } else { 0int }),
    decreases s.len(),
{
    let t = s.update(i, w);
    if i == s.len() - 1 {
        assert(t.drop_last() =~= s.drop_last());
    } else {
        lemma_count_update(s.drop_last(), i, w, v);
        assert(t.drop_last() =~= s.drop_last().update(i, w));
    }
}

proof fn lemma_count_le(s: Seq<u8>, v: u8)
    ensures
        count_eq(s, v) <= s.len(),
    decreases s.len(),
{
    if s.len() > 0 {
        lemma_count_le(s.drop_last(), v);
    }
}

proof fn lemma_count_all(s: Seq<u8>, v: u8)
    requires
        forall|i: int| 0 <= i < s.len() ==> s[i] == v,
    ensures
        count_eq(s, v) == s.len(),
    decreases s.len(),
{
    if s.len() > 0 {
        lemma_count_all(s.drop_last(), v);
    }
}

/// Successor edges still to be examined by the frames of the stack.
spec fn remaining(adj: Seq<Seq<usize>>, stack: Seq<(usize, usize)>) -> nat
    decreases stack.len(),
{
    if stack.len() == 0 {
        0
    } else {
        remaining(adj, stack.drop_last()) + (adj[stack.last().0 as int].len() - stack.last().1) as nat
    }
}


proof fn lemma_count_absent(s: Seq<u8>, v: u8)
    requires
        forall|i: int| 0 <= i < s.len() ==> s[i] != v,
    ensures
        count_eq(s, v) == 0,
    decreases s.len(),
{
    if s.len() > 0 {
        lemma_count_absent(s.drop_last(), v);
    }
}

proof fn lemma_push_first(
    adj: Seq<Seq<usize>>,
    st0: Seq<u8>,
    st: Seq<u8>,
    sk: Seq<(usize, usize)>,
    post: Seq<usize>,
    fin: Seq<int>,
    back: bool,
    start: usize,
)
    requires
        adjacency_wf(adj),
        dfs_inv(adj, st0, Seq::empty(), post, fin, back),
        start < adj.len(),
        st0[start as int] == 0,
        st == st0.update(start as int, 1),
        sk == seq![(start, 0usize)],
    ensures
        dfs_inv(adj, st, sk, post, fin, back),
{
    let n = adj.len();
    assert(sk[0].0 == start);
    assert forall|x: usize| x < n implies (st[x as int] == 1 <==> #[trigger] on_stack(sk, x)) by {
        if on_stack(sk, x) {
            let k = choose|k: int| 0 <= k < sk.len() && (#[trigger] sk[k]).0 == x;
            assert(k == 0);
        }
        if x == start {
            assert(sk[0].0 == x);
        } else {
            assert(!on_stack(Seq::<(usize, usize)>::empty(), x));
        }
    }
    assert forall|p: int, j: int|
        0 <= p < post.len() && 0 <= j < adj[post[p] as int].len() implies back || {
            let v = #[trigger] adj[post[p] as int][j];
            st[v as int] == 2 && fin[v as int] < p
        } by {
        let v = adj[post[p] as int][j];
        if !back {
            assert(st0[v as int] == 2);
        }
    }
}

proof fn lemma_step_descend(
    adj: Seq<Seq<usize>>,
    st: Seq<u8>,
    sk: Seq<(usize, usize)>,
    post: Seq<usize>,
    fin: Seq<int>,
    back: bool,
    next: usize,
)
    requires
        adjacency_wf(adj),
        dfs_inv(adj, st, sk, post, fin, back),
        sk.len() > 0,
        sk.last().1 < adj[sk.last().0 as int].len(),
        sk.last().1 < usize::MAX,
        next == adj[sk.last().0 as int][sk.last().1 as int],
        st[next as int] == 0,
    ensures
        ({
            let top = sk.len() - 1;
            let sk2 = sk.update(top, (sk.last().0, (sk.last().1 + 1) as usize)).push((next, 0usize));
            dfs_inv(adj, st.update(next as int, 1), sk2, post, fin, back)
        }),
{
    let n = adj.len();
    let top = sk.len() - 1;
    let node = sk.last().0;
    let cursor = sk.last().1;
    let sk1 = sk.update(top, (node, (cursor + 1) as usize));
    let sk2 = sk1.push((next, 0usize));
    let st2 = st.update(next as int, 1);
    assert(next < n);
    assert(!on_stack(sk, next));
    assert forall|i: int, k: int| 0 <= i < k < sk2.len() implies sk2[i].0 != sk2[k].0 by {
        if k == sk2.len() - 1 {
            if sk2[i].0 == next {
                assert(sk[i].0 == next);
            }
        }
    }
    assert forall|i: int| 0 <= i < sk2.len() - 1 implies (#[trigger] sk2[i]).1 > 0
        && adj[sk2[i].0 as int][sk2[i].1 - 1] == sk2[i + 1].0 by {
        if i < top {
            assert(sk2[i] == sk[i]);
            assert(sk2[i + 1].0 == sk[i + 1].0);
        } else {
            assert(i == top);
            assert(sk2[i] == (node, (cursor + 1) as usize));
            assert(sk2[i + 1].0 == next);
        }
    }
    assert(frames_wf(adj, sk2));
    assert forall|x: usize| x < n implies (st2[x as int] == 1 <==> #[trigger] on_stack(sk2, x)) by {
        if x == next {
            assert(sk2[sk2.len() - 1].0 == x);
        } else {
            if on_stack(sk2, x) {
                let k = choose|k: int| 0 <= k < sk2.len() && (#[trigger] sk2[k]).0 == x;
                assert(sk[k].0 == x);
            }
            if on_stack(sk, x) {
                let k = choose|k: int| 0 <= k < sk.len() && (#[trigger] sk[k]).0 == x;
                assert(sk2[k].0 == x);
            }
        }
    }
    assert forall|p: int| 0 <= p < post.len() implies st2[post[p] as int] == 2 by {
        assert(st[post[p] as int] == 2);
    }
    assert forall|p: int, j: int|
        0 <= p < post.len() && 0 <= j < adj[post[p] as int].len() implies back || {
            let v = #[trigger] adj[post[p] as int][j];
            st2[v as int] == 2 && fin[v as int] < p
        } by {
        let v = adj[post[p] as int][j];
        if !back {
            assert(st[v as int] == 2);
        }
    }
    assert forall|i: int, j: int|
        0 <= i < sk2.len() && 0 <= j < sk2[i].1 implies back || {
            let v = #[trigger] adj[sk2[i].0 as int][j];
            st2[v as int] == 2 || exists|k: int| i < k < sk2.len() && sk2[k].0 == v
        } by {
        let v = adj[sk2[i].0 as int][j];
        if i == top && j == cursor {
            assert(sk2[top + 1].0 == v);
        } else if i <= top {
            assert(sk2[i].0 == sk[i].0);
            if !back && st[v as int] != 2 {
                let k = choose|k: int| i < k < sk.len() && sk[k].0 == v;
                assert(sk2[k].0 == v);
            }
        }
    }
}

proof fn lemma_step_back_edge(
    adj: Seq<Seq<usize>>,
    st: Seq<u8>,
    sk: Seq<(usize, usize)>,
    post: Seq<usize>,
    fin: Seq<int>,
    back: bool,
    next: usize,
)
    requires
        adjacency_wf(adj),
        dfs_inv(adj, st, sk, post, fin, false) || dfs_inv(adj, st, sk, post, fin, true),
        back,
        sk.len() > 0,
        sk.last().1 < adj[sk.last().0 as int].len(),
        sk.last().1 < usize::MAX,
        next == adj[sk.last().0 as int][sk.last().1 as int],
        st[next as int] == 1,
    ensures
        ({
            let top = sk.len() - 1;
            let sk1 = sk.update(top, (sk.last().0, (sk.last().1 + 1) as usize));
            dfs_inv(adj, st, sk1, post, fin, back)
        }),
{
    let n = adj.len();
    let top = sk.len() - 1;
    let node = sk.last().0;
    let cursor = sk.last().1;
    let sk1 = sk.update(top, (node, (cursor + 1) as usize));
    assert(next < n);
    assert(on_stack(sk, next));
    let k = choose|k: int| 0 <= k < sk.len() && (#[trigger] sk[k]).0 == next;
    assert(adj[sk.last().0 as int].contains(next));
    lemma_stack_path_cycle(adj, sk, k, next);
    assert forall|i: int| 0 <= i < sk1.len() - 1 implies (#[trigger] sk1[i]).1 > 0
        && adj[sk1[i].0 as int][sk1[i].1 - 1] == sk1[i + 1].0 by {
        assert(sk1[i] == sk[i]);
        if i + 1 < top {
            assert(sk1[i + 1] == sk[i + 1]);
        }
    }
    assert forall|i: int, k: int| 0 <= i < k < sk1.len() implies sk1[i].0 != sk1[k].0 by {
        assert(sk1[i].0 == sk[i].0);
        assert(sk1[k].0 == sk[k].0);
    }
    assert(frames_wf(adj, sk1));
    assert forall|x: usize| x < n implies (st[x as int] == 1 <==> #[trigger] on_stack(sk1, x)) by {
        if on_stack(sk1, x) {
            let k = choose|k: int| 0 <= k < sk1.len() && (#[trigger] sk1[k]).0 == x;
            assert(sk[k].0 == x);
        }
        if on_stack(sk, x) {
            let k = choose|k: int| 0 <= k < sk.len() && (#[trigger] sk[k]).0 == x;
            assert(sk1[k].0 == x);
        }
    }
}

proof fn lemma_step_finished(
    adj: Seq<Seq<usize>>,
    st: Seq<u8>,
    sk: Seq<(usize, usize)>,
    post: Seq<usize>,
    fin: Seq<int>,
    back: bool,
    next: usize,
)
    requires
        adjacency_wf(adj),
        dfs_inv(adj, st, sk, post, fin, back),
        sk.len() > 0,
        sk.last().1 < adj[sk.last().0 as int].len(),
        sk.last().1 < usize::MAX,
        next == adj[sk.last().0 as int][sk.last().1 as int],
        st[next as int] == 2,
    ensures
        ({
            let top = sk.len() - 1;
            let sk1 = sk.update(top, (sk.last().0, (sk.last().1 + 1) as usize));
            dfs_inv(adj, st, sk1, post, fin, back)
        }),
{
    let n = adj.len();
    let top = sk.len() - 1;
    let node = sk.last().0;
    let cursor = sk.last().1;
    let sk1 = sk.update(top, (node, (cursor + 1) as usize));
    assert forall|i: int| 0 <= i < sk1.len() - 1 implies (#[trigger] sk1[i]).1 > 0
        && adj[sk1[i].0 as int][sk1[i].1 - 1] == sk1[i + 1].0 by {
        assert(sk1[i] == sk[i]);
        if i + 1 < top {
            assert(sk1[i + 1] == sk[i + 1]);
        }
    }
    assert forall|i: int, k: int| 0 <= i < k < sk1.len() implies sk1[i].0 != sk1[k].0 by {
        assert(sk1[i].0 == sk[i].0);
        assert(sk1[k].0 == sk[k].0);
    }
    assert(frames_wf(adj, sk1));
    assert forall|x: usize| x < n implies (st[x as int] == 1 <==> #[trigger] on_stack(sk1, x)) by {
        if on_stack(sk1, x) {
            let k = choose|k: int| 0 <= k < sk1.len() && (#[trigger] sk1[k]).0 == x;
            assert(sk[k].0 == x);
        }
        if on_stack(sk, x) {
            let k = choose|k: int| 0 <= k < sk.len() && (#[trigger] sk[k]).0 == x;
            assert(sk1[k].0 == x);
        }
    }
    assert forall|i: int, j: int|
        0 <= i < sk1.len() && 0 <= j < sk1[i].1 implies back || {
            let v = #[trigger] adj[sk1[i].0 as int][j];
            st[v as int] == 2 || exists|k: int| i < k < sk1.len() && sk1[k].0 == v
        } by {
        let v = adj[sk1[i].0 as int][j];
        assert(sk1[i].0 == sk[i].0);
        if !(i == top && j == cursor) && !back && st[v as int] != 2 {
            let k = choose|k: int| i < k < sk.len() && sk[k].0 == v;
            assert(sk1[k].0 == v);
        }
    }
}

proof fn lemma_step_finish(
    adj: Seq<Seq<usize>>,
    st: Seq<u8>,
    sk: Seq<(usize, usize)>,
    post: Seq<usize>,
    fin: Seq<int>,
    back: bool,
)
    requires
        adjacency_wf(adj),
        dfs_inv(adj, st, sk, post, fin, back),
        sk.len() > 0,
        sk.last().1 >= adj[sk.last().0 as int].len(),
    ensures
        ({
            let node = sk.last().0;
            dfs_inv(
                adj,
                st.update(node as int, 2),
                sk.drop_last(),
                post.push(node),
                fin.update(node as int, post.len() as int),
                back,
            )
        }),
{
    let n = adj.len();
    let top = sk.len() - 1;
    let node = sk.last().0;
    let sk1 = sk.drop_last();
    let st1 = st.update(node as int, 2);
    let post1 = post.push(node);
    let fin1 = fin.update(node as int, post.len() as int);
    assert(on_stack(sk, node)) by { assert(sk[top].0 == node); }
    assert(st[node as int] == 1);
    assert forall|p: int| 0 <= p < post.len() implies post[p] != node by {
        assert(st[post[p] as int] == 2);
    }
    assert(frames_wf(adj, sk1)) by {
        assert forall|i: int| 0 <= i < sk1.len() - 1 implies (#[trigger] sk1[i]).1 > 0
            && adj[sk1[i].0 as int][sk1[i].1 - 1] == sk1[i + 1].0 by {
            assert(sk1[i] == sk[i]);
            assert(sk1[i + 1] == sk[i + 1]);
        }
    }
    assert forall|x: usize| x < n implies (st1[x as int] == 1 <==> #[trigger] on_stack(sk1, x)) by {
        if on_stack(sk1, x) {
            let k = choose|k: int| 0 <= k < sk1.len() && (#[trigger] sk1[k]).0 == x;
            assert(sk[k].0 == x);
            assert(x != node);
        }
        if x != node && on_stack(sk, x) {
            let k = choose|k: int| 0 <= k < sk.len() && (#[trigger] sk[k]).0 == x;
            assert(k != top);
            assert(sk1[k].0 == x);
        }
    }
    assert forall|p: int| 0 <= p < post1.len() implies fin1[#[trigger] post1[p] as int] == p by {
        if p < post.len() {
            assert(post1[p] == post[p]);
        }
    }
    assert forall|x: int|
        0 <= x < n && st1[x] == 2 implies 0 <= #[trigger] fin1[x] < post1.len() && post1[fin1[x]] == x by {
        if x != node {
            assert(st[x] == 2);
        }
    }
    assert forall|p: int, j: int|
        0 <= p < post1.len() && 0 <= j < adj[post1[p] as int].len() implies back || {
            let v = #[trigger] adj[post1[p] as int][j];
            st1[v as int] == 2 && fin1[v as int] < p
        } by {
        let v = adj[post1[p] as int][j];
        if !back {
            if p < post.len() {
                assert(post1[p] == post[p]);
                assert(st[v as int] == 2);
                assert(v != node);
            } else {
                assert(post1[p] == node);
                assert(j < sk[top].1);
                assert(st[v as int] == 2 || exists|k: int| top < k < sk.len() && sk[k].0 == v);
                assert(st[v as int] == 2);
                assert(v != node);
            }
        }
    }
    assert forall|i: int, j: int|
        0 <= i < sk1.len() && 0 <= j < sk1[i].1 implies back || {
            let v = #[trigger] adj[sk1[i].0 as int][j];
            st1[v as int] == 2 || exists|k: int| i < k < sk1.len() && sk1[k].0 == v
        } by {
        let v = adj[sk1[i].0 as int][j];
        assert(sk1[i] == sk[i]);
        if !back && st[v as int] != 2 {
            let k = choose|k: int| i < k < sk.len() && sk[k].0 == v;
            if k == top {
                assert(v == node);
            } else {
                assert(sk1[k].0 == v);
            }
        }
    }
}

proof fn lemma_post_is_permutation(adj: Seq<Seq<usize>>, st: Seq<u8>, post: Seq<usize>, fin: Seq<int>)
    requires
        dfs_inv(adj, st, Seq::empty(), post, fin, false) || dfs_inv(adj, st, Seq::empty(), post, fin, true),
        count_eq(st, 2) == post.len(),
        count_eq(st, 2) == st.len(),
        forall|x: int| 0 <= x < st.len() ==> st[x] == 2,
    ensures
        is_permutation(post, adj.len()),
{
    let n = adj.len();
    assert forall|i: int, j: int| 0 <= i < j < post.len() implies post[i] != post[j] by {
        if post[i] == post[j] {
            assert(fin[post[i] as int] == i);
            assert(fin[post[j] as int] == j);
        }
    }
    assert forall|x: usize| x < n implies #[trigger] post.contains(x) by {
        assert(st[x as int] == 2);
        assert(post[fin[x as int]] == x);
    }
}

proof fn lemma_reverse_order(
    adj: Seq<Seq<usize>>,
    st: Seq<u8>,
    post: Seq<usize>,
    fin: Seq<int>,
    back: bool,
    order: Seq<usize>,
)
    requires
        dfs_inv(adj, st, Seq::empty(), post, fin, back),
        is_permutation(post, adj.len()),
        order.len() == post.len(),
        forall|i: int| 0 <= i < order.len() ==> order[i] == post[post.len() - 1 - i],
    ensures
        is_permutation(order, adj.len()),
        !back ==> is_topological(adj, order),
{
    let n = adj.len();
    let len = post.len();
    assert forall|i: int, j: int| 0 <= i < j < order.len() implies order[i] != order[j] by {
        assert(post[len - 1 - i] != post[len - 1 - j]);
    }
    assert forall|x: usize| x < n implies #[trigger] order.contains(x) by {
        assert(post.contains(x));
        let p = choose|p: int| 0 <= p < len && post[p] == x;
        assert(order[len - 1 - p] == x);
    }
    assert forall|i: int| 0 <= i < order.len() implies (#[trigger] order[i]) < n by {
        assert(order[i] == post[len - 1 - i]);
    }
    if !back {
        assert forall|i: int, k: int|
            #![trigger order[i], order[k]]
            0 <= i <= k < order.len() implies !adj[order[k] as int].contains(order[i]) by {
            let pk = len - 1 - k;
            let pi = len - 1 - i;
            if adj[order[k] as int].contains(order[i]) {
                let j = choose|j: int| 0 <= j < adj[post[pk] as int].len()
                    && adj[post[pk] as int][j] == order[i];
                let v = adj[post[pk] as int][j];
                assert(fin[v as int] < pk);
                assert(fin[post[pi] as int] == pi);
            }
        }
    }
}

/// A graph with a topological ordering of all its nodes has no cycle.
pub proof fn lemma_topological_acyclic(adj: Seq<Seq<usize>>, order: Seq<usize>)
    requires
        is_permutation(order, adj.len()),
        is_topological(adj, order),
    ensures
        !has_cycle(adj),
{
    if has_cycle(adj) {
        let path = choose|path: Seq<usize>|
            #[trigger] is_path(adj, path) && path.len() >= 2 && path[0] == path.last();
        // position of each node in the order
        let pos = |x: usize| choose|i: int| 0 <= i < order.len() && order[i] == x;
        assert forall|i: int| 0 <= i < path.len() implies {
            let p = #[trigger] pos(path[i]);
            0 <= p < order.len() && order[p] == path[i]
        } by {
            assert(order.contains(path[i]));
        }
        assert forall|i: int| 0 <= i < path.len() - 1 implies pos(path[i]) < #[trigger] pos(path[i + 1]) by {
            let a = pos(path[i]);
            let b = pos(path[i + 1]);
            assert(adj[path[i] as int].contains(path[i + 1]));
            if b <= a {
                assert(order[a] == path[i]);
                assert(order[b] == path[i + 1]);
                assert(!adj[order[a] as int].contains(order[b]));
            }
        }
        lemma_increasing_chain(path, pos);
        assert(pos(path[0]) == pos(path[path.len() - 1]));
    }
}

proof fn lemma_increasing_chain(path: Seq<usize>, pos: spec_fn(usize) -> int)
    requires
        path.len() >= 2,
        forall|i: int| 0 <= i < path.len() - 1 ==> pos(path[i]) < #[trigger] pos(path[i + 1]),
    ensures
        pos(path[0]) < pos(path[path.len() - 1]),
    decreases path.len(),
{
    let last = path.len() - 2;
    assert(pos(path[last]) < pos(path[last + 1]));
    if path.len() > 2 {
        let shorter = path.drop_last();
        assert forall|i: int| 0 <= i < shorter.len() - 1 implies pos(shorter[i]) < #[trigger] pos(
            shorter[i + 1],
        ) by {
            assert(pos(path[i]) < pos(path[i + 1]));
        }
        lemma_increasing_chain(shorter, pos);
    }
}

/// What the search knows of reachability: an edge from a finished node
/// leads to one finished earlier or to one that reaches back; an edge an
/// open frame has examined leads to a finished node, to a frame above it,
/// or to one that reaches back.
spec fn dfs_reach(adj: Seq<Seq<usize>>, st: Seq<u8>, sk: Seq<(usize, usize)>, post: Seq<usize>, fin: Seq<int>) -> bool {
    &&& forall|p: int, j: int| 0 <= p < post.len() && 0 <= j < adj[post[p] as int].len() ==> {
        let v = #[trigger] adj[post[p] as int][j];
        (st[v as int] == 2 && fin[v as int] < p) || reaches(adj, v, post[p])
    }
    &&& forall|i: int, j: int| 0 <= i < sk.len() && 0 <= j < sk[i].1 ==> {
        let v = #[trigger] adj[sk[i].0 as int][j];
        st[v as int] == 2 || (exists|k: int| i < k < sk.len() && sk[k].0 == v) || reaches(adj, v, sk[i].0)
    }
}

proof fn lemma_reach_first(
    adj: Seq<Seq<usize>>, st0: Seq<u8>, st: Seq<u8>, sk: Seq<(usize, usize)>, post: Seq<usize>, fin: Seq<int>, back: bool, start: usize,
)
    requires
        adjacency_wf(adj),
        dfs_inv(adj, st0, Seq::empty(), post, fin, back),
        dfs_reach(adj, st0, Seq::empty(), post, fin),
        start < st0.len(),
        st0[start as int] == 0,
        st == st0.update(start as int, 1),
        sk == seq![(start, 0usize)],
    ensures
        dfs_reach(adj, st, sk, post, fin),
{
    assert forall|p: int, j: int| 0 <= p < post.len() && 0 <= j < adj[post[p] as int].len() implies {
        let v = #[trigger] adj[post[p] as int][j];
        (st[v as int] == 2 && fin[v as int] < p) || reaches(adj, v, post[p])
    } by {
        assert(post[p] < adj.len());
        let v = adj[post[p] as int][j];
        assert(v < adj.len());
        if st0[v as int] == 2 {
            assert(v != start);
        }
    }
}

proof fn lemma_reach_descend(
    adj: Seq<Seq<usize>>, st: Seq<u8>, sk: Seq<(usize, usize)>, post: Seq<usize>, fin: Seq<int>, back: bool, next: usize,
)
    requires
        adjacency_wf(adj),
        dfs_inv(adj, st, sk, post, fin, back),
        dfs_reach(adj, st, sk, post, fin),
        sk.len() > 0,
        sk.last().1 < adj[sk.last().0 as int].len(),
        sk.last().1 < usize::MAX,
        next == adj[sk.last().0 as int][sk.last().1 as int],
        st[next as int] == 0,
    ensures
        ({
            let top = sk.len() - 1;
            let sk2 = sk.update(top, (sk.last().0, (sk.last().1 + 1) as usize)).push((next, 0usize));
            dfs_reach(adj, st.update(next as int, 1), sk2, post, fin)
        }),
{
    let top = sk.len() - 1;
    let node = sk.last().0;
    let cursor = sk.last().1;
    let sk2 = sk.update(top, (node, (cursor + 1) as usize)).push((next, 0usize));
    let st2 = st.update(next as int, 1);
    assert forall|p: int, j: int| 0 <= p < post.len() && 0 <= j < adj[post[p] as int].len() implies {
        let v = #[trigger] adj[post[p] as int][j];
        (st2[v as int] == 2 && fin[v as int] < p) || reaches(adj, v, post[p])
    } by {
        let v = adj[post[p] as int][j];
        if st[v as int] == 2 {
            assert(v != next);
        }
    }
    assert forall|i: int, j: int| 0 <= i < sk2.len() && 0 <= j < sk2[i].1 implies {
        let v = #[trigger] adj[sk2[i].0 as int][j];
        st2[v as int] == 2 || (exists|k: int| i < k < sk2.len() && sk2[k].0 == v) || reaches(adj, v, sk2[i].0)
    } by {
        let v = adj[sk2[i].0 as int][j];
        if i == top && j == cursor {
            assert(sk2[top + 1].0 == v);
        } else if i <= top {
            assert(sk2[i].0 == sk[i].0);
            if st[v as int] == 2 {
                assert(v != next);
            } else if exists|k: int| i < k < sk.len() && sk[k].0 == v {
                let k = choose|k: int| i < k < sk.len() && sk[k].0 == v;
                assert(sk2[k].0 == v);
            }
        }
    }
}

/// The frames from `k` to the top form a path.
proof fn lemma_stack_reaches(adj: Seq<Seq<usize>>, sk: Seq<(usize, usize)>, k: int)
    requires
        frames_wf(adj, sk),
        0 <= k < sk.len(),
    ensures
        reaches(adj, sk[k].0, sk.last().0),
{
    let top = sk.len() - 1;
    let path = Seq::new((top - k + 1) as nat, |i: int| sk[k + i].0);
    assert(is_path(adj, path)) by {
        assert forall|i: int| 0 <= i < path.len() - 1 implies adj[path[i] as int].contains(#[trigger] path[i + 1]) by {
            let f = sk[k + i];
            assert(adj[f.0 as int][f.1 - 1] == sk[k + i + 1].0);
        }
    }
    assert(path[0] == sk[k].0);
    assert(path.last() == sk[top].0);
}

proof fn lemma_reach_examined(
    adj: Seq<Seq<usize>>, st: Seq<u8>, sk: Seq<(usize, usize)>, post: Seq<usize>, fin: Seq<int>, back: bool, next: usize,
)
    requires
        adjacency_wf(adj),
        dfs_inv(adj, st, sk, post, fin, back),
        dfs_reach(adj, st, sk, post, fin),
        sk.len() > 0,
        sk.last().1 < adj[sk.last().0 as int].len(),
        sk.last().1 < usize::MAX,
        next == adj[sk.last().0 as int][sk.last().1 as int],
        st[next as int] != 0,
    ensures
        ({
            let top = sk.len() - 1;
            let sk1 = sk.update(top, (sk.last().0, (sk.last().1 + 1) as usize));
            dfs_reach(adj, st, sk1, post, fin)
        }),
{
    let n = adj.len();
    let top = sk.len() - 1;
    let node = sk.last().0;
    let cursor = sk.last().1;
    let sk1 = sk.update(top, (node, (cursor + 1) as usize));
    assert(next < n);
    if st[next as int] != 2 {
        assert(st[next as int] <= 2);
        assert(on_stack(sk, next));
        let k = choose|k: int| 0 <= k < sk.len() && (#[trigger] sk[k]).0 == next;
        lemma_stack_reaches(adj, sk, k);
    }
    assert forall|i: int, j: int| 0 <= i < sk1.len() && 0 <= j < sk1[i].1 implies {
        let v = #[trigger] adj[sk1[i].0 as int][j];
        st[v as int] == 2 || (exists|k: int| i < k < sk1.len() && sk1[k].0 == v) || reaches(adj, v, sk1[i].0)
    } by {
        let v = adj[sk1[i].0 as int][j];
        assert(sk1[i].0 == sk[i].0);
        if !(i == top && j == cursor) {
            if st[v as int] != 2 && exists|k: int| i < k < sk.len() && sk[k].0 == v {
                let k = choose|k: int| i < k < sk.len() && sk[k].0 == v;
                assert(sk1[k].0 == v);
            }
        }
    }
}

proof fn lemma_reach_finish(
    adj: Seq<Seq<usize>>, st: Seq<u8>, sk: Seq<(usize, usize)>, post: Seq<usize>, fin: Seq<int>, back: bool,
)
    requires
        adjacency_wf(adj),
        dfs_inv(adj, st, sk, post, fin, back),
        dfs_reach(adj, st, sk, post, fin),
        sk.len() > 0,
        sk.last().1 >= adj[sk.last().0 as int].len(),
    ensures
        ({
            let node = sk.last().0;
            dfs_reach(adj, st.update(node as int, 2), sk.drop_last(), post.push(node), fin.update(node as int, post.len() as int))
        }),
{
    let n = adj.len();
    let top = sk.len() - 1;
    let node = sk.last().0;
    let sk1 = sk.drop_last();
    let st1 = st.update(node as int, 2);
    let post1 = post.push(node);
    let fin1 = fin.update(node as int, post.len() as int);
    assert(on_stack(sk, node)) by { assert(sk[top].0 == node); }
    assert(st[node as int] == 1);
    assert forall|p: int, j: int| 0 <= p < post1.len() && 0 <= j < adj[post1[p] as int].len() implies {
        let v = #[trigger] adj[post1[p] as int][j];
        (st1[v as int] == 2 && fin1[v as int] < p) || reaches(adj, v, post1[p])
    } by {
        let v = adj[post1[p] as int][j];
        assert(v < n);
        if p < post.len() {
            assert(post1[p] == post[p]);
            if st[v as int] == 2 && fin[v as int] < p {
                assert(v != node);
            }
        } else {
            assert(post1[p] == node);
            assert(j < sk[top].1);
            if st[v as int] == 2 {
                assert(v != node);
                assert(fin[v as int] < post.len());
            } else if exists|k: int| top < k < sk.len() && sk[k].0 == v {
                assert(false);
            }
        }
    }
    assert forall|i: int, j: int| 0 <= i < sk1.len() && 0 <= j < sk1[i].1 implies {
        let v = #[trigger] adj[sk1[i].0 as int][j];
        st1[v as int] == 2 || (exists|k: int| i < k < sk1.len() && sk1[k].0 == v) || reaches(adj, v, sk1[i].0)
    } by {
        let v = adj[sk1[i].0 as int][j];
        assert(sk1[i] == sk[i]);
        if st[v as int] != 2 && exists|k: int| i < k < sk.len() && sk[k].0 == v {
            let k = choose|k: int| i < k < sk.len() && sk[k].0 == v;
            if k == top {
                assert(v == node);
            } else {
                assert(sk1[k].0 == v);
            }
        }
    }
}

proof fn lemma_reverse_reach(adj: Seq<Seq<usize>>, st: Seq<u8>, post: Seq<usize>, fin: Seq<int>, back: bool, order: Seq<usize>)
    requires
        dfs_inv(adj, st, Seq::empty(), post, fin, back),
        dfs_reach(adj, st, Seq::empty(), post, fin),
        is_permutation(post, adj.len()),
        order.len() == post.len(),
        forall|i: int| 0 <= i < order.len() ==> order[i] == post[post.len() - 1 - i],
    ensures
        forall|i: int, k: int| #![trigger order[i], order[k]]
            0 <= i <= k < order.len() && adj[order[k] as int].contains(order[i]) ==> reaches(adj, order[i], order[k]),
{
    let len = post.len();
    assert forall|i: int, k: int| #![trigger order[i], order[k]]
        0 <= i <= k < order.len() && adj[order[k] as int].contains(order[i]) implies reaches(adj, order[i], order[k]) by {
        let pk = len - 1 - k;
        let pi = len - 1 - i;
        let j = choose|j: int| 0 <= j < adj[post[pk] as int].len() && adj[post[pk] as int][j] == order[i];
        let v = adj[post[pk] as int][j];
        assert(fin[post[pi] as int] == pi);
    }
}

/// Depth-first reverse post-order of the graph (roots taken in index order,
/// successors in list order), whether a back edge (a feedback loop) was met,
/// and the root whose search met the first one. Without a back edge the
/// order is topological; a back edge is only ever reported for a graph that
/// has a cycle.
pub fn dfs_order(adj: &Vec<Vec<usize>>) -> (res: (Vec<usize>, bool, usize))
    requires
        adjacency_wf(vec_views(adj@)),
    ensures
        is_permutation(res.0@, adj@.len()),
        !res.1 ==> is_topological(vec_views(adj@), res.0@),
        res.1 == has_cycle(vec_views(adj@)),
        res.1 ==> res.2 < adj@.len(),
        forall|i: int, k: int| #![trigger res.0@[i], res.0@[k]]
            0 <= i <= k < res.0@.len() && vec_views(adj@)[res.0@[k] as int].contains(res.0@[i])
            ==> reaches(vec_views(adj@), res.0@[i], res.0@[k]),
{
    let ghost g = vec_views(adj@);
    let n = adj.len();
    let mut state: Vec<u8> = Vec::new();
    let mut i: usize = 0;
    while i < n
        invariant
            i <= n,
            state@.len() == i,
            forall|x: int| 0 <= x < i ==> state@[x] == 0,
        decreases n - i,
    {
        state.push(0);
        i = i + 1;
    }
    let mut post: Vec<usize> = Vec::new();
    let mut back = false;
    let mut culprit: usize = 0;
    let ghost mut fin: Seq<int> = Seq::new(n as nat, |x: int| 0int);
    proof {
        let empty: Seq<(usize, usize)> = Seq::empty();
        assert forall|x: usize| x < n implies (state@[x as int] == 1 <==> #[trigger] on_stack(empty, x)) by {}
        lemma_count_absent(state@, 2);
    }

    let mut start: usize = 0;
    while start < n
        invariant
            n == adj@.len(),
                g == vec_views(adj@),
            adjacency_wf(g),
            start <= n,
            dfs_inv(g, state@, Seq::empty(), post@, fin, back),
            dfs_reach(g, state@, Seq::empty(), post@, fin),
            count_eq(state@, 2) == post@.len(),
            forall|x: int| 0 <= x < start ==> state@[x] == 2,
            back ==> culprit < n,
        decreases n - start,
    {
        proof {
            assert(!on_stack(Seq::<(usize, usize)>::empty(), start));
        }
        if state[start] != 0 {
            start = start + 1;
            continue;
        }
        let ghost st0 = state@;
        let mut stack: Vec<(usize, usize)> = Vec::new();
        stack.push((start, 0));
        state.set(start, 1);
        proof {
            lemma_count_update(st0, start as int, 1, 2);
            lemma_push_first(g, st0, state@, stack@, post@, fin, back, start);
            lemma_reach_first(g, st0, state@, stack@, post@, fin, back, start);
        }
        while stack.len() > 0
            invariant
                n == adj@.len(),
                g == vec_views(adj@),
                adjacency_wf(g),
                start < n,
                dfs_inv(g, state@, stack@, post@, fin, back),
                dfs_reach(g, state@, stack@, post@, fin),
                count_eq(state@, 2) == post@.len(),
                forall|x: int| 0 <= x < start ==> state@[x] == 2,
                state@[start as int] != 0,
                back ==> culprit < n,
            decreases count_eq(state@, 0), n - count_eq(state@, 2), remaining(g, stack@),
        {
            let top = stack.len() - 1;
            let (node, cursor) = stack[top];
            proof {
                assert(g[node as int] == adj@[node as int]@);
            }
            let ghost st = state@;
            let ghost sk = stack@;
            let ghost ps = post@;
            proof {
                lemma_count_le(st, 2);
                assert(sk.drop_last().push(sk.last()) =~= sk);
            }
            if cursor < adj[node].len() {
                let next = adj[node][cursor];
                stack.set(top, (node, cursor + 1));
                proof {
                    assert(stack@.drop_last() =~= sk.drop_last());
                }
                proof {
                    assert(remaining(g, stack@) < remaining(g, sk));
                }
                if state[next] == 0 {
                    state.set(next, 1);
                    stack.push((next, 0));
                    proof {
                        lemma_count_update(st, next as int, 1, 0);
                        lemma_count_update(st, next as int, 1, 2);
                        lemma_step_descend(g, st, sk, post@, fin, back, next);
                        lemma_reach_descend(g, st, sk, post@, fin, back, next);
                    }
                } else if state[next] == 1 {
                    proof {
                        lemma_reach_examined(g, st, sk, post@, fin, back, next);
                    }
                    if !back {
                        culprit = start;
                    }
                    back = true;
                    proof {
                        lemma_step_back_edge(g, st, sk, post@, fin, back, next);
                    }
                } else {
                    proof {
                        lemma_step_finished(g, st, sk, post@, fin, back, next);
                        lemma_reach_examined(g, st, sk, post@, fin, back, next);
                    }
                }
            } else {
                proof {
                    assert(on_stack(sk, node)) by { assert(sk[top as int].0 == node); }
                    lemma_step_finish(g, st, sk, ps, fin, back);
                    lemma_reach_finish(g, st, sk, ps, fin, back);
                }
                stack.pop();
                state.set(node, 2);
                proof {
                    fin = fin.update(node as int, ps.len() as int);
                    lemma_count_update(st, node as int, 2, 0);
                    lemma_count_update(st, node as int, 2, 2);
                    lemma_count_le(state@, 2);
                }
                post.push(node);
                proof {
                    assert(post@ =~= ps.push(node));
                }
            }
        }
        proof {
            assert(!on_stack(stack@, start));
            assert(stack@ =~= Seq::<(usize, usize)>::empty());
        }
        start = start + 1;
    }
    proof {
        lemma_count_all(state@, 2);
        lemma_post_is_permutation(g, state@, post@, fin);
    }
    let mut order: Vec<usize> = Vec::new();
    let mut k: usize = post.len();
    while k > 0
        invariant
            k <= post@.len(),
            order@.len() == post@.len() - k,
            forall|i: int| 0 <= i < order@.len() ==> order@[i] == post@[post@.len() - 1 - i],
        decreases k,
    {
        k = k - 1;
        order.push(post[k]);
    }
    proof {
        lemma_reverse_order(g, state@, post@, fin, back, order@);
        lemma_reverse_reach(g, state@, post@, fin, back, order@);
        if !back {
            lemma_topological_acyclic(g, order@);
        }
    }
    (order, back, culprit)
}

} // verus!
