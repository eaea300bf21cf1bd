//! Topology compilation for a signal graph: the processing order, the
//! feedback groups (strongly-connected components in topological order),
//! and the index-based routes the audio path follows.
//!
//! This runs only when the topology changes. Modules are identified by their
//! position in the graph's insertion-ordered module table.

use vstd::prelude::*;
use crate::schedule::{vec_views, adjacency_wf, dfs_order, has_cycle, is_permutation, is_topological};
use crate::scc::{is_partition, reaches, tarjan_scc};

verus! {

/// Largest processing block, in frames.
pub const MAX_BLOCK: usize = 512;

/// A routed connection in the signal graph, by module name and port name.
#[derive(Clone, Debug)]
pub struct RoutingConnection {
    pub from_module: String,
    pub from_port: String,
    pub to_module: String,
    pub to_port: String,
}

/// What the topology compiler reads of a module: its port names, and the
/// modules whose controls it writes while processing (ordering dependencies
/// that carry no signal).
#[derive(Clone, Debug)]
pub struct ModulePorts {
    pub inputs: Vec<String>,
    pub outputs: Vec<String>,
    pub control_targets: Vec<String>,
}

/// A pre-compiled route into a module: source module index, source output
/// port index, destination input port index, and whether the route reads the
/// source's previous sample (a feedback back-edge).
#[derive(Clone, Copy, Debug, PartialEq, Eq, Structural)]
pub struct CompiledRoute {
    pub from_module: usize,
    pub from_port: usize,
    pub to_port: usize,
    pub delayed: bool,
}

/// Modules processed together: one strongly-connected component.
#[derive(Clone, Debug)]
pub struct ProcessGroup {
    pub members: Vec<usize>,
    pub feedback: bool,
}

/// Everything derived from the topology.
pub struct CompiledTopology {
    /// Per-sample processing order (depth-first reverse post-order).
    pub process_order: Vec<usize>,
    /// `position[m]` is module `m`'s place in `process_order`.
    pub position: Vec<usize>,
    /// `component[m]` is the index of the process group holding module `m`.
    pub component: Vec<usize>,
    pub compiled_routes: Vec<Vec<CompiledRoute>>,
    pub connected_in_ports: Vec<Vec<usize>>,
    pub process_groups: Vec<ProcessGroup>,
    pub out_counts: Vec<usize>,
    pub sink_indices: Vec<usize>,
    pub block_capacity: usize,
}

/// View of a list of names.
pub open spec fn names(v: Seq<String>) -> Seq<Seq<char>> {
    v.map_values(|s: String| s@)
}

/// First position at or after `from` whose name is `name`.
pub open spec fn find_from(ids: Seq<Seq<char>>, name: Seq<char>, from: int) -> Option<int>
    decreases ids.len() - from,
{
    if from < 0 || from >= ids.len() {
        None
    } else if ids[from] == name {
        Some(from)
    } else {
        find_from(ids, name, from + 1)
    }
}

/// First position of `name` in `ids`.
pub open spec fn lookup(ids: Seq<Seq<char>>, name: Seq<char>) -> Option<int> {
    find_from(ids, name, 0)
}

pub proof fn lemma_find_from(ids: Seq<Seq<char>>, name: Seq<char>, from: int)
    requires
        0 <= from,
    ensures
        find_from(ids, name, from) matches Some(i) ==> from <= i < ids.len() && ids[i] == name
            && forall|j: int| from <= j < i ==> ids[j] != name,
        find_from(ids, name, from) is None ==> forall|j: int| from <= j < ids.len() ==> ids[j] != name,
    decreases ids.len() - from,
{
    if from < ids.len() && ids[from] != name {
        lemma_find_from(ids, name, from + 1);
    }
}

/// Position of `name` in `list`, the first one if it occurs more than once.
pub fn position_of(list: &Vec<String>, name: &String) -> (r: Option<usize>)
    ensures
        r matches Some(i) ==> i as int == lookup(names(list@), name@)->Some_0,
        r is Some <==> lookup(names(list@), name@) is Some,
{
    let mut i: usize = 0;
    while i < list.len()
        invariant
            i <= list@.len(),
            find_from(names(list@), name@, 0) == find_from(names(list@), name@, i as int),
        decreases list.len() - i,
    {
        if list[i] == *name {
            return Some(i);
        }
        i = i + 1;
    }
    None
}

/// Downstream adjacency from the routed edges, in edge order.
pub open spec fn edge_adjacency(
    ids: Seq<Seq<char>>,
    edges: Seq<RoutingConnection>,
) -> Seq<Seq<usize>>
    decreases edges.len(),
{
    if edges.len() == 0 {
        Seq::new(ids.len(), |i: int| Seq::<usize>::empty())
    } else {
        let prev = edge_adjacency(ids, edges.drop_last());
        let e = edges.last();
        match (lookup(ids, e.from_module@), lookup(ids, e.to_module@)) {
            (Some(f), Some(t)) => prev.update(f, prev[f].push(t as usize)),
            _ => prev,
        }
    }
}

/// Adds the control-write targets of modules `0..upto` to `adj`, module by
/// module and target by target.
pub open spec fn with_targets(
    ids: Seq<Seq<char>>,
    ports: Seq<ModulePorts>,
    adj: Seq<Seq<usize>>,
    upto: int,
) -> Seq<Seq<usize>>
    decreases upto,
{
    if upto <= 0 {
        adj
    } else {
        let prev = with_targets(ids, ports, adj, upto - 1);
        let m = upto - 1;
        add_targets(ids, prev, m, names(ports[m].control_targets@))
    }
}

pub open spec fn add_targets(
    ids: Seq<Seq<char>>,
    adj: Seq<Seq<usize>>,
    m: int,
    targets: Seq<Seq<char>>,
) -> Seq<Seq<usize>>
    decreases targets.len(),
{
    if targets.len() == 0 {
        adj
    } else {
        let prev = add_targets(ids, adj, m, targets.drop_last());
        match lookup(ids, targets.last()) {
            Some(t) => prev.update(m, prev[m].push(t as usize)),
            None => prev,
        }
    }
}

/// The full downstream adjacency: routed edges, then control-write targets.
pub open spec fn downstream(
    ids: Seq<Seq<char>>,
    ports: Seq<ModulePorts>,
    edges: Seq<RoutingConnection>,
) -> Seq<Seq<usize>> {
    with_targets(ids, ports, edge_adjacency(ids, edges), ids.len() as int)
}


} // verus!

verus! {

/// The compiled route for one edge, if both modules and both ports exist.
pub open spec fn route_of(
    ids: Seq<Seq<char>>,
    ports: Seq<ModulePorts>,
    e: RoutingConnection,
    comp_id: Seq<usize>,
    pos: Seq<usize>,
) -> Option<(int, CompiledRoute)> {
    match (lookup(ids, e.from_module@), lookup(ids, e.to_module@)) {
        (Some(f), Some(t)) => match (
            lookup(names(ports[f].outputs@), e.from_port@),
            lookup(names(ports[t].inputs@), e.to_port@),
        ) {
            (Some(fp), Some(tp)) => Some(
                (
                    t,
                    CompiledRoute {
                        from_module: f as usize,
                        from_port: fp as usize,
                        to_port: tp as usize,
                        delayed: comp_id[f] == comp_id[t] && pos[f] >= pos[t],
                    },
                ),
            ),
            _ => None,
        },
        _ => None,
    }
}

/// Routes per destination module, in edge order.
pub open spec fn routes_of(
    ids: Seq<Seq<char>>,
    ports: Seq<ModulePorts>,
    edges: Seq<RoutingConnection>,
    comp_id: Seq<usize>,
    pos: Seq<usize>,
) -> Seq<Seq<CompiledRoute>>
    decreases edges.len(),
{
    if edges.len() == 0 {
        Seq::new(ids.len(), |i: int| Seq::<CompiledRoute>::empty())
    } else {
        let prev = routes_of(ids, ports, edges.drop_last(), comp_id, pos);
        match route_of(ids, ports, edges.last(), comp_id, pos) {
            Some((t, r)) => prev.update(t, prev[t].push(r)),
            None => prev,
        }
    }
}

/// The distinct destination ports of `routes`, in order of first appearance.
pub open spec fn distinct_ports(routes: Seq<CompiledRoute>) -> Seq<usize>
    decreases routes.len(),
{
    if routes.len() == 0 {
        Seq::empty()
    } else {
        let prev = distinct_ports(routes.drop_last());
        if prev.contains(routes.last().to_port) {
            prev
        } else {
            prev.push(routes.last().to_port)
        }
    }
}

/// The members of component `c`, in the order they appear in `order`.
pub open spec fn members_in_order(order: Seq<usize>, comp_id: Seq<usize>, c: usize) -> Seq<usize>
    decreases order.len(),
{
    if order.len() == 0 {
        Seq::empty()
    } else {
        let prev = members_in_order(order.drop_last(), comp_id, c);
        if comp_id[order.last() as int] == c {
            prev.push(order.last())
        } else {
            prev
        }
    }
}

/// Sinks that name a module, as module indices, in sink order.
pub open spec fn sink_positions(ids: Seq<Seq<char>>, sinks: Seq<Seq<char>>) -> Seq<usize>
    decreases sinks.len(),
{
    if sinks.len() == 0 {
        Seq::empty()
    } else {
        let prev = sink_positions(ids, sinks.drop_last());
        match lookup(ids, sinks.last()) {
            Some(i) => prev.push(i as usize),
            None => prev,
        }
    }
}

pub open spec fn clamp_block(block_size: usize) -> usize {
    if block_size < 1 {
        1
    } else if block_size > MAX_BLOCK {
        MAX_BLOCK
    } else {
        block_size
    }
}

/// The module table is well formed: one port record per module, ids distinct.
pub open spec fn table_wf(ids: Seq<String>, ports: Seq<ModulePorts>) -> bool {
    &&& ids.len() == ports.len()
    &&& ids.len() < usize::MAX
    &&& forall|i: int, j: int| 0 <= i < j < ids.len() ==> ids[i]@ != ids[j]@
}

/// Copies a vector of indices.
fn copy_indices(v: &Vec<usize>) -> (r: Vec<usize>)
    ensures
        r@ == v@,
{
    let mut r: Vec<usize> = Vec::new();
    let mut i: usize = 0;
    while i < v.len()
        invariant
            i <= v@.len(),
            r@ == v@.subrange(0, i as int),
        decreases v.len() - i,
    {
        r.push(v[i]);
        i = i + 1;
    }
    r
}

/// Appends `x` to row `i`.
pub fn push_index(rows: &mut Vec<Vec<usize>>, i: usize, x: usize)
    requires
        i < old(rows)@.len(),
    ensures
        final(rows)@.len() == old(rows)@.len(),
        vec_views(final(rows)@) == vec_views(old(rows)@).update(i as int, old(rows)@[i as int]@.push(x)),
{
    let mut row = copy_indices(&rows[i]);
    row.push(x);
    rows.set(i, row);
    proof {
        assert(vec_views(rows@) =~= vec_views(old(rows)@).update(i as int, old(rows)@[i as int]@.push(x)));
    }
}

fn empty_rows(n: usize) -> (rows: Vec<Vec<usize>>)
    ensures
        rows@.len() == n,
        vec_views(rows@) == Seq::new(n as nat, |i: int| Seq::<usize>::empty()),
{
    let mut rows: Vec<Vec<usize>> = Vec::new();
    let mut i: usize = 0;
    while i < n
        invariant
            i <= n,
            rows@.len() == i,
            forall|k: int| 0 <= k < i ==> rows@[k]@ == Seq::<usize>::empty(),
        decreases n - i,
    {
        rows.push(Vec::new());
        i = i + 1;
    }
    proof {
        assert(vec_views(rows@) =~= Seq::new(n as nat, |i: int| Seq::<usize>::empty()));
    }
    rows
}

} // verus!

verus! {

/// Adjacency of the routed edges alone: for each edge whose two modules
/// exist, the destination is appended to the source's successor list.
pub fn build_edge_rows(ids: &Vec<String>, edges: &Vec<RoutingConnection>) -> (adj: Vec<Vec<usize>>)
    requires
        ids@.len() < usize::MAX,
    ensures
        adj@.len() == ids@.len(),
        vec_views(adj@) == edge_adjacency(names(ids@), edges@),
        adjacency_wf(vec_views(adj@)),
{
    let n = ids.len();
    let ghost idv = names(ids@);
    let mut adj = empty_rows(n);
    proof {
        assert(edges@.subrange(0, 0) =~= Seq::<RoutingConnection>::empty());
        assert forall|i: int| 0 <= i < n implies adj@[i]@ == Seq::<usize>::empty() by {
            assert(vec_views(adj@)[i] == adj@[i]@);
        }
    }
    let mut k: usize = 0;
    while k < edges.len()
        invariant
            n == ids@.len(),
            idv == names(ids@),
            k <= edges@.len(),
            adj@.len() == n,
            vec_views(adj@) == edge_adjacency(idv, edges@.subrange(0, k as int)),
            adjacency_wf(vec_views(adj@)),
        decreases edges.len() - k,
    {
        let e = &edges[k];
        let f = position_of(ids, &e.from_module);
        let t = position_of(ids, &e.to_module);
        proof {
            assert(edges@.subrange(0, k + 1).drop_last() =~= edges@.subrange(0, k as int));
            assert(edges@.subrange(0, k + 1).last() == edges@[k as int]);
            lemma_find_from(idv, e.from_module@, 0);
            lemma_find_from(idv, e.to_module@, 0);
        }
        match (f, t) {
            (Some(fi), Some(ti)) => {
                let ghost before = adj@;
                push_index(&mut adj, fi, ti);
                proof {
                    lemma_push_keeps_wf(before, adj@, fi as int, ti);
                }
            },
            _ => {},
        }
        k = k + 1;
    }
    proof {
        assert(edges@.subrange(0, edges@.len() as int) =~= edges@);
    }
    adj
}

proof fn lemma_push_keeps_wf(before: Seq<Vec<usize>>, after: Seq<Vec<usize>>, f: int, t: usize)
    requires
        adjacency_wf(vec_views(before)),
        0 <= f < before.len(),
        t < before.len(),
        after.len() == before.len(),
        vec_views(after) == vec_views(before).update(f, before[f]@.push(t)),
    ensures
        adjacency_wf(vec_views(after)),
{
    assert forall|u: int, j: int|
        0 <= u < vec_views(after).len() && 0 <= j < vec_views(after)[u].len() implies (#[trigger] vec_views(after)[u][j]) < vec_views(after).len() by {
        assert(vec_views(before)[u] == before[u]@);
        if u == f && j < before[u]@.len() {
            assert(vec_views(after)[u][j] == before[u]@[j]);
        }
    }
}

/// Builds the downstream adjacency (routed edges, then control-write
/// targets) and the self-loop flags.
fn build_downstream(
    ids: &Vec<String>,
    ports: &Vec<ModulePorts>,
    edges: &Vec<RoutingConnection>,
) -> (r: (Vec<Vec<usize>>, Vec<bool>))
    requires
        table_wf(ids@, ports@),
    ensures
        r.0@.len() == ids@.len(),
        vec_views(r.0@) == downstream(names(ids@), ports@, edges@),
        adjacency_wf(vec_views(r.0@)),
        r.1@.len() == ids@.len(),
        forall|i: int| 0 <= i < ids@.len() ==> r.1@[i] == r.0@[i]@.contains(i as usize),
{
    let n = ids.len();
    let ghost idv = names(ids@);
    let mut adj = build_edge_rows(ids, edges);
    let ghost base = vec_views(adj@);
    let mut m: usize = 0;
    while m < n
        invariant
            n == ids@.len(),
            idv == names(ids@),
            table_wf(ids@, ports@),
            m <= n,
            adj@.len() == n,
            vec_views(adj@) == with_targets(idv, ports@, base, m as int),
            adjacency_wf(vec_views(adj@)),
        decreases n - m,
    {
        let targets = &ports[m].control_targets;
        let ghost start_adj = vec_views(adj@);
        let ghost tv = names(targets@);
        let mut j: usize = 0;
        proof {
            assert(tv.subrange(0, 0) =~= Seq::<Seq<char>>::empty());
        }
        while j < targets.len()
            invariant
                n == ids@.len(),
                idv == names(ids@),
                table_wf(ids@, ports@),
                m < n,
                j <= targets@.len(),
                tv == names(targets@),
                adj@.len() == n,
                vec_views(adj@) == add_targets(idv, start_adj, m as int, tv.subrange(0, j as int)),
                adjacency_wf(vec_views(adj@)),
            decreases targets.len() - j,
        {
            let t = position_of(ids, &targets[j]);
            proof {
                assert(tv.subrange(0, j + 1).drop_last() =~= tv.subrange(0, j as int));
                assert(tv.subrange(0, j + 1).last() == targets@[j as int]@);
                lemma_find_from(idv, targets@[j as int]@, 0);
            }
            match t {
                Some(ti) => {
                    let ghost before = adj@;
                    push_index(&mut adj, m, ti);
                    proof {
                        lemma_push_keeps_wf(before, adj@, m as int, ti);
                    }
                },
                None => {},
            }
            j = j + 1;
        }
        proof {
            assert(tv.subrange(0, tv.len() as int) =~= tv);
            assert(tv == names(ports@[m as int].control_targets@));
        }
        m = m + 1;
    }
    let mut self_loop: Vec<bool> = Vec::new();
    let mut i: usize = 0;
    while i < n
        invariant
            i <= n,
            adj@.len() == n,
            self_loop@.len() == i,
            forall|k: int| 0 <= k < i ==> self_loop@[k] == adj@[k]@.contains(k as usize),
        decreases n - i,
    {
        self_loop.push(contains_index(&adj[i], i));
        i = i + 1;
    }
    (adj, self_loop)
}

/// Processing order of a sub-graph over its routed connections, and whether
/// it holds a feedback loop (which forces sample-by-sample processing).
///
/// The order lists every module once; without a feedback loop it is
/// topological, and the loop flag is set exactly when the routed graph has
/// a cycle.
pub fn compute_process_order(
    ids: &Vec<String>,
    routing: &Vec<RoutingConnection>,
) -> (r: (Vec<usize>, bool))
    requires
        ids@.len() < usize::MAX,
    ensures
        is_permutation(r.0@, ids@.len()),
        r.1 == has_cycle(edge_adjacency(names(ids@), routing@)),
        !r.1 ==> is_topological(edge_adjacency(names(ids@), routing@), r.0@),
{
    let adj = build_edge_rows(ids, routing);
    let (order, back, _root) = dfs_order(&adj);
    (order, back)
}

} // verus!

verus! {

pub open spec fn rows_view<T>(v: Seq<Vec<T>>) -> Seq<Seq<T>> {
    v.map_values(|x: Vec<T>| x@)
}

pub open spec fn group_members(groups: Seq<ProcessGroup>) -> Seq<Vec<usize>> {
    groups.map_values(|g: ProcessGroup| g.members)
}

fn copy_row<T: Copy>(v: &Vec<T>) -> (r: Vec<T>)
    ensures
        r@ == v@,
{
    let mut r: Vec<T> = Vec::new();
    let mut i: usize = 0;
    while i < v.len()
        invariant
            i <= v@.len(),
            r@ == v@.subrange(0, i as int),
        decreases v.len() - i,
    {
        r.push(v[i]);
        i = i + 1;
    }
    r
}

fn push_row<T: Copy>(rows: &mut Vec<Vec<T>>, i: usize, x: T)
    requires
        i < old(rows)@.len(),
    ensures
        final(rows)@.len() == old(rows)@.len(),
        rows_view(final(rows)@) == rows_view(old(rows)@).update(i as int, old(rows)@[i as int]@.push(x)),
{
    let mut row = copy_row(&rows[i]);
    row.push(x);
    rows.set(i, row);
    proof {
        assert(rows_view(rows@) =~= rows_view(old(rows)@).update(i as int, old(rows)@[i as int]@.push(x)));
    }
}

fn new_rows<T>(n: usize) -> (rows: Vec<Vec<T>>)
    ensures
        rows@.len() == n,
        rows_view(rows@) == Seq::new(n as nat, |i: int| Seq::<T>::empty()),
{
    let mut rows: Vec<Vec<T>> = Vec::new();
    let mut i: usize = 0;
    while i < n
        invariant
            i <= n,
            rows@.len() == i,
            forall|k: int| 0 <= k < i ==> rows@[k]@ == Seq::<T>::empty(),
        decreases n - i,
    {
        rows.push(Vec::new());
        i = i + 1;
    }
    proof {
        assert(rows_view(rows@) =~= Seq::new(n as nat, |i: int| Seq::<T>::empty()));
    }
    rows
}

fn contains_index(v: &Vec<usize>, x: usize) -> (b: bool)
    ensures
        b == v@.contains(x),
{
    let mut i: usize = 0;
    while i < v.len()
        invariant
            i <= v@.len(),
            forall|k: int| 0 <= k < i ==> v@[k] != x,
        decreases v.len() - i,
    {
        if v[i] == x {
            return true;
        }
        i = i + 1;
    }
    false
}

proof fn lemma_members_in_order(order: Seq<usize>, cid: Seq<usize>, c: usize)
    ensures
        forall|x: usize| #[trigger] members_in_order(order, cid, c).contains(x) <==> (order.contains(x)
            && cid[x as int] == c),
        (forall|i: int, j: int| 0 <= i < j < order.len() ==> order[i] != order[j]) ==> (forall|
            i: int,
            j: int,
        |
            0 <= i < j < members_in_order(order, cid, c).len() ==> members_in_order(order, cid, c)[i]
                != members_in_order(order, cid, c)[j]),
    decreases order.len(),
{
    if order.len() > 0 {
        let prev = order.drop_last();
        lemma_members_in_order(prev, cid, c);
        let m = members_in_order(order, cid, c);
        let pm = members_in_order(prev, cid, c);
        assert forall|x: usize| #[trigger] m.contains(x) <==> (order.contains(x) && cid[x as int] == c) by {
            if order.contains(x) && cid[x as int] == c {
                let k = choose|k: int| 0 <= k < order.len() && order[k] == x;
                if k < prev.len() {
                    assert(prev[k] == x);
                    assert(pm.contains(x));
                    let q = choose|q: int| 0 <= q < pm.len() && pm[q] == x;
                    if cid[order.last() as int] == c {
                        assert(m[q] == x);
                    }
                } else {
                    assert(m[m.len() - 1] == x);
                }
            }
            if m.contains(x) {
                let q = choose|q: int| 0 <= q < m.len() && m[q] == x;
                if q < pm.len() {
                    assert(pm[q] == x);
                    assert(pm.contains(x));
                    let k = choose|k: int| 0 <= k < prev.len() && prev[k] == x;
                    assert(order[k] == x);
                } else {
                    assert(order[order.len() - 1] == x);
                }
            }
        }
        if forall|i: int, j: int| 0 <= i < j < order.len() ==> order[i] != order[j] {
            assert forall|i: int, j: int| 0 <= i < j < prev.len() implies prev[i] != prev[j] by {
                assert(prev[i] == order[i]);
                assert(prev[j] == order[j]);
            }
            if cid[order.last() as int] == c {
                assert(!prev.contains(order.last())) by {
                    if prev.contains(order.last()) {
                        let k = choose|k: int| 0 <= k < prev.len() && prev[k] == order.last();
                        assert(order[k] == order[order.len() - 1]);
                    }
                }
                assert(!pm.contains(order.last()));
                assert forall|i: int, j: int| 0 <= i < j < m.len() implies m[i] != m[j] by {
                    if j == m.len() - 1 {
                        assert(m[i] == pm[i]);
                        assert(pm.contains(pm[i]));
                    } else {
                        assert(m[i] == pm[i]);
                        assert(m[j] == pm[j]);
                    }
                }
            }
        }
    }
}

/// Compiles the graph topology: processing order, feedback groups, routes,
/// connected input ports, output counts, sink indices and block capacity.
///
/// The processing order is a depth-first reverse post-order over the
/// downstream adjacency (routed edges, then control-write targets); it is
/// topological whenever the graph is acyclic. Groups are the strongly
/// connected components of the graph, in topological order of their
/// condensation, each listing its members in processing order; a group is a
/// feedback group when it has more than one member or a self-loop. A route
/// is delayed (reads the previous sample) when it stays inside one group and
/// its source is processed at or after its destination.
pub fn compile_topology(
    ids: &Vec<String>,
    ports: &Vec<ModulePorts>,
    edges: &Vec<RoutingConnection>,
    sinks: &Vec<String>,
    block_size: usize,
) -> (r: CompiledTopology)
    requires
        table_wf(ids@, ports@),
    ensures
        ({
            let n = ids@.len();
            let g = downstream(names(ids@), ports@, edges@);
            &&& is_permutation(r.process_order@, n)
            &&& !has_cycle(g) ==> is_topological(g, r.process_order@)
            &&& r.position@.len() == n
            &&& forall|i: int| 0 <= i < n ==> r.position@[r.process_order@[i] as int] == i
            &&& is_partition(r.component@, group_members(r.process_groups@), n)
            &&& forall|u: int, w: int| 0 <= u < n && 0 <= w < n ==> (r.component@[u] == r.component@[w] <==> (
                reaches(g, u as usize, w as usize) && reaches(g, w as usize, u as usize)))
            &&& forall|u: int, j: int| 0 <= u < n && 0 <= j < g[u].len()
                ==> r.component@[u] <= r.component@[#[trigger] g[u][j] as int]
            &&& forall|u: int, j: int| 0 <= u < n && 0 <= j < g[u].len()
                && r.component@[u] != r.component@[#[trigger] g[u][j] as int]
                ==> r.position@[u] < r.position@[g[u][j] as int]
            &&& forall|c: int|
                0 <= c < r.process_groups@.len() ==> (#[trigger] r.process_groups@[c]).members@
                    == members_in_order(r.process_order@, r.component@, c as usize)
            &&& forall|c: int|
                0 <= c < r.process_groups@.len() ==> (#[trigger] r.process_groups@[c]).feedback == (
                r.process_groups@[c].members@.len() > 1 || g[r.process_groups@[c].members@[0] as int].contains(
                    r.process_groups@[c].members@[0],
                ))
            &&& rows_view(r.compiled_routes@) == routes_of(
                names(ids@),
                ports@,
                edges@,
                r.component@,
                r.position@,
            )
            &&& r.connected_in_ports@.len() == n
            &&& forall|t: int|
                0 <= t < n ==> (#[trigger] r.connected_in_ports@[t])@ == distinct_ports(
                    r.compiled_routes@[t]@,
                )
            &&& r.out_counts@.len() == n
            &&& forall|i: int| 0 <= i < n ==> r.out_counts@[i] == ports@[i].outputs@.len()
            &&& r.sink_indices@ == sink_positions(names(ids@), names(sinks@))
            &&& r.block_capacity == clamp_block(block_size)
        }),
{
    let n = ids.len();
    let ghost idv = names(ids@);
    let (adj, self_loop) = build_downstream(ids, ports, edges);
    let ghost g = vec_views(adj@);
    let (order, _back, _root) = dfs_order(&adj);

    // position of each module in the processing order
    let mut position: Vec<usize> = Vec::new();
    let mut i: usize = 0;
    while i < n
        invariant
            i <= n,
            position@.len() == i,
        decreases n - i,
    {
        position.push(0);
        i = i + 1;
    }
    let mut i: usize = 0;
    while i < n
        invariant
            n == ids@.len(),
            is_permutation(order@, n as nat),
            i <= n,
            position@.len() == n,
            forall|k: int| 0 <= k < i ==> position@[order@[k] as int] == k,
        decreases n - i,
    {
        let m = order[i];
        position.set(m, i);
        proof {
            assert forall|k: int| 0 <= k < i + 1 implies position@[order@[k] as int] == k by {
                if k < i {
                    assert(order@[k] != order@[i as int]);
                }
            }
        }
        i = i + 1;
    }

    let (component, comps) = tarjan_scc(&adj, n);

    // routes per destination
    let mut routes: Vec<Vec<CompiledRoute>> = new_rows(n);
    let mut k: usize = 0;
    proof {
        assert(edges@.subrange(0, 0) =~= Seq::<RoutingConnection>::empty());
    }
    while k < edges.len()
        invariant
            n == ids@.len(),
            idv == names(ids@),
            table_wf(ids@, ports@),
            k <= edges@.len(),
            routes@.len() == n,
            component@.len() == n,
            position@.len() == n,
            rows_view(routes@) == routes_of(idv, ports@, edges@.subrange(0, k as int), component@, position@),
        decreases edges.len() - k,
    {
        let e = &edges[k];
        proof {
            assert(edges@.subrange(0, k + 1).drop_last() =~= edges@.subrange(0, k as int));
            assert(edges@.subrange(0, k + 1).last() == edges@[k as int]);
            lemma_find_from(idv, e.from_module@, 0);
            lemma_find_from(idv, e.to_module@, 0);
        }
        match (position_of(ids, &e.from_module), position_of(ids, &e.to_module)) {
            (Some(f), Some(t)) => {
                let fp = position_of(&ports[f].outputs, &e.from_port);
                let tp = position_of(&ports[t].inputs, &e.to_port);
                proof {
                    lemma_find_from(names(ports@[f as int].outputs@), e.from_port@, 0);
                    lemma_find_from(names(ports@[t as int].inputs@), e.to_port@, 0);
                }
                match (fp, tp) {
                    (Some(fpi), Some(tpi)) => {
                        let delayed = component[f] == component[t] && position[f] >= position[t];
                        push_row(&mut routes, t, CompiledRoute { from_module: f, from_port: fpi, to_port: tpi, delayed });
                    },
                    _ => {},
                }
            },
            _ => {},
        }
        k = k + 1;
    }
    proof {
        assert(edges@.subrange(0, edges@.len() as int) =~= edges@);
    }

    // distinct connected input ports per module
    let mut connected: Vec<Vec<usize>> = Vec::new();
    let mut t: usize = 0;
    while t < n
        invariant
            t <= n,
            routes@.len() == n,
            connected@.len() == t,
            forall|u: int| 0 <= u < t ==> (#[trigger] connected@[u])@ == distinct_ports(routes@[u]@),
        decreases n - t,
    {
        let mut seen: Vec<usize> = Vec::new();
        let mut j: usize = 0;
        let ghost rs = routes@[t as int]@;
        proof {
            assert(rs.subrange(0, 0) =~= Seq::<CompiledRoute>::empty());
        }
        while j < routes[t].len()
            invariant
                t < n,
                routes@.len() == n,
                rs == routes@[t as int]@,
                j <= rs.len(),
                seen@ == distinct_ports(rs.subrange(0, j as int)),
            decreases rs.len() - j,
        {
            let port = routes[t][j].to_port;
            proof {
                assert(rs.subrange(0, j + 1).drop_last() =~= rs.subrange(0, j as int));
                assert(rs.subrange(0, j + 1).last() == rs[j as int]);
            }
            if !contains_index(&seen, port) {
                seen.push(port);
            }
            j = j + 1;
        }
        proof {
            assert(rs.subrange(0, rs.len() as int) =~= rs);
        }
        connected.push(seen);
        t = t + 1;
    }

    // process groups: each component's members in processing order
    let count = comps.len();
    let mut buckets: Vec<Vec<usize>> = new_rows(count);
    let mut i: usize = 0;
    proof {
        assert(order@.subrange(0, 0) =~= Seq::<usize>::empty());
        assert forall|c: int| 0 <= c < count implies (#[trigger] buckets@[c])@ == members_in_order(order@.subrange(0, 0), component@, c as usize) by {
            assert(rows_view(buckets@)[c] == buckets@[c]@);
        }
    }
    while i < n
        invariant
            n == ids@.len(),
            is_permutation(order@, n as nat),
            is_partition(component@, comps@, n as nat),
            count == comps@.len(),
            i <= n,
            buckets@.len() == count,
            forall|c: int| 0 <= c < count ==> (#[trigger] buckets@[c])@ == members_in_order(order@.subrange(0, i as int), component@, c as usize),
        decreases n - i,
    {
        let m = order[i];
        let c = component[m];
        let ghost before = buckets@;
        push_row(&mut buckets, c, m);
        proof {
            let pre = order@.subrange(0, i as int);
            let cur = order@.subrange(0, i + 1);
            assert(cur.drop_last() =~= pre);
            assert(cur.last() == m);
            assert forall|cc: int| 0 <= cc < count implies (#[trigger] buckets@[cc])@ == members_in_order(cur, component@, cc as usize) by {
                assert(rows_view(buckets@)[cc] == buckets@[cc]@);
                assert(rows_view(before)[cc] == before[cc]@);
            }
        }
        i = i + 1;
    }
    proof {
        assert(order@.subrange(0, n as int) =~= order@);
    }
    let mut groups: Vec<ProcessGroup> = Vec::new();
    let mut c: usize = 0;
    while c < count
        invariant
            n == ids@.len(),
            g == vec_views(adj@),
            adj@.len() == n,
            self_loop@.len() == n,
            forall|x: int| 0 <= x < n ==> self_loop@[x] == adj@[x]@.contains(x as usize),
            is_permutation(order@, n as nat),
            is_partition(component@, comps@, n as nat),
            count == comps@.len(),
            c <= count,
            buckets@.len() == count,
            forall|cc: int| 0 <= cc < count ==> (#[trigger] buckets@[cc])@ == members_in_order(order@, component@, cc as usize),
            groups@.len() == c,
            forall|cc: int| 0 <= cc < c ==> (#[trigger] groups@[cc]).members@ == buckets@[cc]@,
            forall|cc: int| 0 <= cc < c ==> (#[trigger] groups@[cc]).feedback == (groups@[cc].members@.len() > 1
                || g[groups@[cc].members@[0] as int].contains(groups@[cc].members@[0])),
        decreases count - c,
    {
        let members = copy_indices(&buckets[c]);
        proof {
            lemma_members_in_order(order@, component@, c as usize);
            let x = comps@[c as int]@[0];
            assert(comps@[c as int]@.len() > 0);
            assert(component@[x as int] == c);
            assert(order@.contains(x));
            assert(members_in_order(order@, component@, c as usize).contains(x));
        }
        let feedback = members.len() > 1 || self_loop[members[0]];
        proof {
            let m0 = members@[0];
            assert(members_in_order(order@, component@, c as usize).contains(m0));
            assert(m0 < n);
            assert(g[m0 as int] == adj@[m0 as int]@);
        }
        groups.push(ProcessGroup { members, feedback });
        c = c + 1;
    }

    // output counts
    let mut out_counts: Vec<usize> = Vec::new();
    let mut i: usize = 0;
    while i < n
        invariant
            n == ids@.len(),
            table_wf(ids@, ports@),
            i <= n,
            out_counts@.len() == i,
            forall|k: int| 0 <= k < i ==> out_counts@[k] == ports@[k].outputs@.len(),
        decreases n - i,
    {
        out_counts.push(ports[i].outputs.len());
        i = i + 1;
    }

    // sink indices
    let mut sink_indices: Vec<usize> = Vec::new();
    let mut s: usize = 0;
    let ghost sv = names(sinks@);
    proof {
        assert(sv.subrange(0, 0) =~= Seq::<Seq<char>>::empty());
    }
    while s < sinks.len()
        invariant
            idv == names(ids@),
            sv == names(sinks@),
            s <= sinks@.len(),
            sink_indices@ == sink_positions(idv, sv.subrange(0, s as int)),
        decreases sinks.len() - s,
    {
        proof {
            assert(sv.subrange(0, s + 1).drop_last() =~= sv.subrange(0, s as int));
            assert(sv.subrange(0, s + 1).last() == sinks@[s as int]@);
        }
        match position_of(ids, &sinks[s]) {
            Some(x) => sink_indices.push(x),
            None => {},
        }
        s = s + 1;
    }
    proof {
        assert(sv.subrange(0, sv.len() as int) =~= sv);
    }

    let block_capacity = if block_size < 1 {
        1
    } else if block_size > MAX_BLOCK {
        MAX_BLOCK
    } else {
        block_size
    };

    proof {
        lemma_groups_partition(order@, component@, comps@, groups@, n as nat);
        assert forall|u: int, j: int| 0 <= u < n && 0 <= j < g[u].len()
            && component@[u] != component@[#[trigger] g[u][j] as int]
            implies position@[u] < position@[g[u][j] as int] by {
            let w = g[u][j];
            assert(w < n);
            if position@[w as int] <= position@[u] {
                assert(order@.contains(w));
                assert(order@.contains(u as usize));
                let mw = choose|m: int| 0 <= m < order@.len() && order@[m] == w;
                let mu = choose|m: int| 0 <= m < order@.len() && order@[m] == u as usize;
                assert(position@[order@[mw] as int] == mw);
                assert(position@[order@[mu] as int] == mu);
                assert(g[order@[mu] as int].contains(order@[mw]));
                assert(crate::scc::reaches(g, order@[mw], order@[mu]));
                crate::scc::lemma_reaches_edge(g, u as usize, j);
            }
        }
    }
    CompiledTopology {
        process_order: order,
        position,
        component,
        compiled_routes: routes,
        connected_in_ports: connected,
        process_groups: groups,
        out_counts,
        sink_indices,
        block_capacity,
    }
}

proof fn lemma_groups_partition(
    order: Seq<usize>,
    cid: Seq<usize>,
    comps: Seq<Vec<usize>>,
    groups: Seq<ProcessGroup>,
    n: nat,
)
    requires
        is_permutation(order, n),
        is_partition(cid, comps, n),
        groups.len() == comps.len(),
        groups.len() <= usize::MAX,
        forall|c: int| 0 <= c < groups.len() ==> (#[trigger] groups[c]).members@ == members_in_order(order, cid, c as usize),
    ensures
        is_partition(cid, group_members(groups), n),
{
    let gm = group_members(groups);
    assert forall|c: int| 0 <= c < groups.len() implies #[trigger] gm[c] == groups[c].members by {}
    assert forall|x: int| 0 <= x < n implies gm[cid[x] as int]@.contains(x as usize) by {
        let c = cid[x];
        lemma_members_in_order(order, cid, c);
        assert(order.contains(x as usize));
        assert(gm[c as int] == groups[c as int].members);
    }
    assert forall|c: int| 0 <= c < gm.len() implies (#[trigger] gm[c])@.len() > 0 by {
        lemma_members_in_order(order, cid, c as usize);
        let x = comps[c]@[0];
        assert(cid[x as int] == c);
        assert(order.contains(x));
        assert(members_in_order(order, cid, c as usize).contains(x));
    }
    assert forall|c: int, m: int|
        0 <= c < gm.len() && 0 <= m < gm[c]@.len() implies (#[trigger] gm[c]@[m]) < n
            && cid[gm[c]@[m] as int] == c by {
        lemma_members_in_order(order, cid, c as usize);
        let x = gm[c]@[m];
        assert(gm[c] == groups[c].members);
        assert(members_in_order(order, cid, c as usize)[m] == x);
        assert(members_in_order(order, cid, c as usize).contains(x));
        let k = choose|k: int| 0 <= k < order.len() && order[k] == x;
        assert(order[k] < n);
    }
    assert forall|c: int, i: int, j: int|
        0 <= c < gm.len() && 0 <= i < j < gm[c]@.len() implies (#[trigger] gm[c]@[i])
            != #[trigger] gm[c]@[j] by {
        lemma_members_in_order(order, cid, c as usize);
    }
}

} // verus!
