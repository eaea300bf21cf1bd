//! The signal graph's topology under live edits: which modules are in it
//! (in map order), which of them are sinks, the routed connections, and
//! whether the processing order must be recompiled.

use vstd::prelude::*;
use crate::invention::copy_string;
use crate::state::{other_conn, touches};
use crate::text::str_equal;
use crate::topology::{RoutingConnection, names};

verus! {

/// A graph edit as the topology sees it.
pub enum GraphEdit {
    /// A module is added, replacing one with the same id in place.
    AddModule { module_id: String, is_sink: bool },
    /// A module and every connection touching it are removed; the last
    /// module takes its place in the order.
    RemoveModule { module_id: String },
    AddConnection(RoutingConnection),
    /// Every copy of the connection is removed.
    RemoveConnection(RoutingConnection),
    /// An input port of a module is set; the topology does not change.
    SetModuleInput { module_id: String },
}

/// The topology of a signal graph.
pub struct SignalTopology {
    /// Module ids in map order, each once.
    pub module_ids: Vec<String>,
    /// Sink module ids, in the order they were added.
    pub sinks: Vec<String>,
    pub edges: Vec<RoutingConnection>,
    /// The processing order must be recompiled before the next block.
    pub topo_dirty: bool,
}

pub open spec fn edge_view(e: RoutingConnection) -> (Seq<char>, Seq<char>, Seq<char>, Seq<char>) {
    (e.from_module@, e.from_port@, e.to_module@, e.to_port@)
}

pub open spec fn edges_view(v: Seq<RoutingConnection>) -> Seq<(Seq<char>, Seq<char>, Seq<char>, Seq<char>)> {
    Seq::new(v.len(), |i: int| edge_view(v[i]))
}

/// Position of `id` among the module ids.
pub open spec fn index_of(ids: Seq<Seq<char>>, id: Seq<char>) -> Option<int> {
    crate::topology::lookup(ids, id)
}

/// The module ids after removing `id` the way an insertion-ordered map's
/// `swap_remove` does: the last id moves into its place.
pub open spec fn swap_removed(ids: Seq<Seq<char>>, id: Seq<char>) -> Seq<Seq<char>> {
    match index_of(ids, id) {
        Some(i) => ids.update(i, ids.last()).drop_last(),
        None => ids,
    }
}

/// The module ids after inserting `id`: unchanged when present, else
/// appended.
pub open spec fn inserted(ids: Seq<Seq<char>>, id: Seq<char>) -> Seq<Seq<char>> {
    if ids.contains(id) { ids } else { ids.push(id) }
}

pub open spec fn not_id(id: Seq<char>) -> spec_fn(Seq<char>) -> bool {
    |x: Seq<char>| x != id
}

pub open spec fn not_touching_edge(id: Seq<char>) -> spec_fn((Seq<char>, Seq<char>, Seq<char>, Seq<char>)) -> bool {
    |c: (Seq<char>, Seq<char>, Seq<char>, Seq<char>)| !touches(c, id)
}

/// The topology after one edit.
pub open spec fn edit_spec(
    ids: Seq<Seq<char>>,
    sinks: Seq<Seq<char>>,
    edges: Seq<(Seq<char>, Seq<char>, Seq<char>, Seq<char>)>,
    dirty: bool,
    e: GraphEdit,
) -> (Seq<Seq<char>>, Seq<Seq<char>>, Seq<(Seq<char>, Seq<char>, Seq<char>, Seq<char>)>, bool) {
    match e {
        GraphEdit::AddModule { module_id, is_sink } => (
            inserted(ids, module_id@),
            if is_sink && !sinks.contains(module_id@) { sinks.push(module_id@) } else { sinks },
            edges,
            true,
        ),
        GraphEdit::RemoveModule { module_id } => (
            swap_removed(ids, module_id@),
            sinks.filter(not_id(module_id@)),
            edges.filter(not_touching_edge(module_id@)),
            true,
        ),
        GraphEdit::AddConnection(c) => (ids, sinks, edges.push(edge_view(c)), true),
        GraphEdit::RemoveConnection(c) => (ids, sinks, edges.filter(other_conn(edge_view(c))), true),
        GraphEdit::SetModuleInput { .. } => (ids, sinks, edges, dirty),
    }
}

proof fn lemma_lookup(ids: Seq<Seq<char>>, id: Seq<char>, k: int)
    requires
        0 <= k,
    ensures
        crate::topology::find_from(ids, id, k) matches Some(i) ==> k <= i < ids.len() && ids[i] == id
            && forall|j: int| k <= j < i ==> ids[j] != id,
        crate::topology::find_from(ids, id, k) is None ==> forall|j: int| k <= j < ids.len() ==> ids[j] != id,
    decreases ids.len() - k,
{
    if k < ids.len() && ids[k] != id {
        lemma_lookup(ids, id, k + 1);
    }
}

fn keep_other_ids(v: &Vec<String>, id: &String) -> (r: Vec<String>)
    ensures
        names(r@) == names(v@).filter(not_id(id@)),
{
    let ghost s = names(v@);
    let mut r: Vec<String> = Vec::new();
    let mut i: usize = 0;
    while i < v.len()
        invariant
            i <= v@.len(),
            s == names(v@),
            names(r@) == s.take(i as int).filter(not_id(id@)),
        decreases v.len() - i,
    {
        proof {
            reveal_with_fuel(Seq::filter, 1);
            assert(s.take(i + 1).drop_last() =~= s.take(i as int));
            assert(s.take(i + 1).last() == v@[i as int]@);
        }
        if !str_equal(v[i].as_str(), id.as_str()) {
            let ghost before = names(r@);
            r.push(copy_string(&v[i]));
            proof {
                assert(names(r@) =~= before.push(v@[i as int]@));
            }
        }
        i = i + 1;
    }
    proof {
        assert(s.take(s.len() as int) =~= s);
    }
    r
}

fn keep_edges(v: &Vec<RoutingConnection>, id: &String, conn: &RoutingConnection, by_module: bool) -> (r: Vec<RoutingConnection>)
    ensures
        by_module ==> edges_view(r@) == edges_view(v@).filter(not_touching_edge(id@)),
        !by_module ==> edges_view(r@) == edges_view(v@).filter(other_conn(edge_view(*conn))),
{
    let ghost s = edges_view(v@);
    let ghost p = if by_module { not_touching_edge(id@) } else { other_conn(edge_view(*conn)) };
    let mut r: Vec<RoutingConnection> = Vec::new();
    let mut i: usize = 0;
    while i < v.len()
        invariant
            i <= v@.len(),
            s == edges_view(v@),
            p == (if by_module { not_touching_edge(id@) } else { other_conn(edge_view(*conn)) }),
            edges_view(r@) == s.take(i as int).filter(p),
        decreases v.len() - i,
    {
        proof {
            reveal_with_fuel(Seq::filter, 1);
            assert(s.take(i + 1).drop_last() =~= s.take(i as int));
            assert(s.take(i + 1).last() == s[i as int]);
        }
        let e = &v[i];
        let keep = if by_module {
            !(str_equal(e.from_module.as_str(), id.as_str()) || str_equal(e.to_module.as_str(), id.as_str()))
        } else {
            !(str_equal(e.from_module.as_str(), conn.from_module.as_str()) && str_equal(e.from_port.as_str(), conn.from_port.as_str())
                && str_equal(e.to_module.as_str(), conn.to_module.as_str()) && str_equal(e.to_port.as_str(), conn.to_port.as_str()))
        };
        if keep {
            let ghost before = edges_view(r@);
            r.push(RoutingConnection {
                from_module: copy_string(&e.from_module),
                from_port: copy_string(&e.from_port),
                to_module: copy_string(&e.to_module),
                to_port: copy_string(&e.to_port),
            });
            proof {
                assert(edges_view(r@) =~= before.push(s[i as int]));
            }
        }
        i = i + 1;
    }
    proof {
        assert(s.take(s.len() as int) =~= s);
    }
    r
}

impl SignalTopology {
    /// Applies one edit (see [`edit_spec`]). Every edit but an input write
    /// marks the processing order for recompilation.
    pub fn apply_command(&mut self, cmd: GraphEdit)
        ensures
            (names(final(self).module_ids@), names(final(self).sinks@), edges_view(final(self).edges@), final(self).topo_dirty)
                == edit_spec(names(old(self).module_ids@), names(old(self).sinks@), edges_view(old(self).edges@), old(self).topo_dirty, cmd),
    {
        let ghost ids0 = names(self.module_ids@);
        match cmd {
            GraphEdit::AddModule { module_id, is_sink } => {
                let present = crate::topology::position_of(&self.module_ids, &module_id).is_some();
                proof {
                    lemma_lookup(ids0, module_id@, 0);
                    if ids0.contains(module_id@) {
                        let k = choose|k: int| 0 <= k < ids0.len() && ids0[k] == module_id@;
                        assert(ids0[k] == module_id@);
                    }
                }
                if !present {
                    let ghost before = names(self.module_ids@);
                    self.module_ids.push(copy_string(&module_id));
                    proof {
                        assert(names(self.module_ids@) =~= before.push(module_id@));
                    }
                }
                if is_sink {
                    let known = crate::topology::position_of(&self.sinks, &module_id).is_some();
                    proof {
                        let s0 = names(self.sinks@);
                        lemma_lookup(s0, module_id@, 0);
                        if s0.contains(module_id@) {
                            let k = choose|k: int| 0 <= k < s0.len() && s0[k] == module_id@;
                            assert(s0[k] == module_id@);
                        }
                    }
                    if !known {
                        let ghost before = names(self.sinks@);
                        self.sinks.push(module_id);
                        proof {
                            assert(names(self.sinks@) =~= before.push(module_id@));
                        }
                    }
                }
                self.topo_dirty = true;
            },
            GraphEdit::RemoveModule { module_id } => {
                proof {
                    lemma_lookup(ids0, module_id@, 0);
                }
                match crate::topology::position_of(&self.module_ids, &module_id) {
                    Some(i) => {
                        self.module_ids.swap_remove(i);
                        proof {
                            assert(names(self.module_ids@) =~= ids0.update(i as int, ids0.last()).drop_last());
                        }
                    },
                    None => {},
                }
                let sinks = keep_other_ids(&self.sinks, &module_id);
                self.sinks = sinks;
                let unused = RoutingConnection {
                    from_module: copy_string(&module_id),
                    from_port: copy_string(&module_id),
                    to_module: copy_string(&module_id),
                    to_port: copy_string(&module_id),
                };
                let edges = keep_edges(&self.edges, &module_id, &unused, true);
                self.edges = edges;
                self.topo_dirty = true;
            },
            GraphEdit::AddConnection(c) => {
                let ghost before = edges_view(self.edges@);
                let ghost cv = edge_view(c);
                self.edges.push(c);
                proof {
                    assert(edges_view(self.edges@) =~= before.push(cv));
                }
                self.topo_dirty = true;
            },
            GraphEdit::RemoveConnection(c) => {
                let edges = keep_edges(&self.edges, &c.from_module, &c, false);
                self.edges = edges;
                self.topo_dirty = true;
            },
            GraphEdit::SetModuleInput { .. } => {},
        }
    }
}

/// After a module is removed, no connection touches it, it is no sink, and
/// no other module is lost.
pub proof fn lemma_remove_module_detaches(
    ids: Seq<Seq<char>>,
    sinks: Seq<Seq<char>>,
    edges: Seq<(Seq<char>, Seq<char>, Seq<char>, Seq<char>)>,
    id: Seq<char>,
)
    requires
        ids.no_duplicates(),
    ensures
        ({
            let after = swap_removed(ids, id);
            &&& !after.contains(id)
            &&& forall|x: Seq<char>| ids.contains(x) && x != id ==> after.contains(x)
            &&& !sinks.filter(not_id(id)).contains(id)
            &&& forall|i: int| 0 <= i < edges.filter(not_touching_edge(id)).len()
                ==> !touches(#[trigger] edges.filter(not_touching_edge(id))[i], id)
        }),
{
    let after = swap_removed(ids, id);
    lemma_lookup(ids, id, 0);
    match index_of(ids, id) {
        Some(i) => {
            assert forall|x: Seq<char>| ids.contains(x) && x != id implies after.contains(x) by {
                let k = choose|k: int| 0 <= k < ids.len() && ids[k] == x;
                if k == ids.len() - 1 {
                    if i != k {
                        assert(after[i] == x);
                    }
                } else {
                    assert(k != i);
                    assert(after[k] == x);
                }
            }
            assert(!after.contains(id)) by {
                if after.contains(id) {
                    let k = choose|k: int| 0 <= k < after.len() && after[k] == id;
                    if k == i {
                        assert(ids.last() == id);
                        assert(ids[ids.len() - 1] == ids[i]);
                    } else {
                        assert(ids[k] == id);
                    }
                }
            }
        },
        None => {},
    }
    assert(!sinks.filter(not_id(id)).contains(id)) by {
        if sinks.filter(not_id(id)).contains(id) {
            let k = choose|k: int| 0 <= k < sinks.filter(not_id(id)).len() && sinks.filter(not_id(id))[k] == id;
            sinks.lemma_filter_pred(not_id(id), k);
        }
    }
    assert forall|i: int| 0 <= i < edges.filter(not_touching_edge(id)).len()
        implies !touches(#[trigger] edges.filter(not_touching_edge(id))[i], id) by {
        edges.lemma_filter_pred(not_touching_edge(id), i);
    }
}

} // verus!
