//! The runtime-owned picture of a running graph: the module and connection
//! snapshots, the retained declarative document, and the bookkeeping that
//! each live edit (add, swap, remove, connect, disconnect, control write)
//! performs on them.

use vstd::prelude::*;
use crate::invention::{
    ConnectionV, Invention, InventionConnection, InventionV, ModuleSpec, ModuleSpecV, copy_string,
    invention_clone,
};
use crate::json::{Json, JsonV, json_clone, lemma_members_view, members_view};
use crate::reload::{conn_copy, conn_view, conns_view, find_info, find_info_exec, infos_view};
use crate::rpc::{ControlValue, ControlValueV, RuntimeModuleInfo};
use crate::runtime::{RuntimeConnectionInfo, RuntimeStatus};
use crate::text::str_equal;

verus! {

// ---------------------------------------------------------------------------
// The model

/// A module snapshot as plain values: id, type, config.
pub open spec fn info_of(id: Seq<char>, module_type: Seq<char>, config: JsonV) -> (Seq<char>, Seq<char>, JsonV) {
    (id, module_type, config)
}

/// The module list after an insertion-ordered map's `insert`: the entry with
/// the same id is replaced in place, or the new one is appended.
pub open spec fn upsert_info(
    s: Seq<(Seq<char>, Seq<char>, JsonV)>,
    info: (Seq<char>, Seq<char>, JsonV),
) -> Seq<(Seq<char>, Seq<char>, JsonV)> {
    match find_info(s, info.0, 0) {
        Some(k) => s.update(k, info),
        None => s.push(info),
    }
}

pub open spec fn other_id(id: Seq<char>) -> spec_fn((Seq<char>, Seq<char>, JsonV)) -> bool {
    |e: (Seq<char>, Seq<char>, JsonV)| e.0 != id
}

/// The module list without module `id`, order kept.
pub open spec fn remove_info(s: Seq<(Seq<char>, Seq<char>, JsonV)>, id: Seq<char>) -> Seq<(Seq<char>, Seq<char>, JsonV)> {
    s.filter(other_id(id))
}

/// Module ids occur at most once.
pub open spec fn ids_unique(s: Seq<(Seq<char>, Seq<char>, JsonV)>) -> bool {
    forall|i: int, j: int| 0 <= i < j < s.len() ==> s[i].0 != s[j].0
}

/// Whether a connection has module `id` at either end.
pub open spec fn touches(c: (Seq<char>, Seq<char>, Seq<char>, Seq<char>), id: Seq<char>) -> bool {
    c.0 == id || c.2 == id
}

pub open spec fn not_touching(id: Seq<char>) -> spec_fn((Seq<char>, Seq<char>, Seq<char>, Seq<char>)) -> bool {
    |c: (Seq<char>, Seq<char>, Seq<char>, Seq<char>)| !touches(c, id)
}

pub open spec fn touching(id: Seq<char>) -> spec_fn((Seq<char>, Seq<char>, Seq<char>, Seq<char>)) -> bool {
    |c: (Seq<char>, Seq<char>, Seq<char>, Seq<char>)| touches(c, id)
}

pub open spec fn other_conn(c: (Seq<char>, Seq<char>, Seq<char>, Seq<char>)) -> spec_fn((Seq<char>, Seq<char>, Seq<char>, Seq<char>)) -> bool {
    |x: (Seq<char>, Seq<char>, Seq<char>, Seq<char>)| x != c
}

/// First document module with id `id`, from position `k` on.
pub open spec fn find_spec(s: Seq<ModuleSpecV>, id: Seq<char>, k: int) -> Option<int>
    decreases s.len() - k,
{
    if k < 0 || k >= s.len() {
        None
    } else if s[k].id == id {
        Some(k)
    } else {
        find_spec(s, id, k + 1)
    }
}

/// The document's module list after recording module `id` with a type and
/// config: the first spec with that id is updated, or a new one appended.
pub open spec fn upsert_spec(s: Seq<ModuleSpecV>, id: Seq<char>, module_type: Seq<char>, config: JsonV) -> Seq<ModuleSpecV> {
    match find_spec(s, id, 0) {
        Some(k) => s.update(k, ModuleSpecV { id: s[k].id, module_type, config }),
        None => s.push(ModuleSpecV { id, module_type, config }),
    }
}

pub open spec fn other_spec(id: Seq<char>) -> spec_fn(ModuleSpecV) -> bool {
    |m: ModuleSpecV| m.id != id
}

/// `doc` with its module list replaced.
pub open spec fn with_modules(doc: InventionV, modules: Seq<ModuleSpecV>) -> InventionV {
    InventionV { modules, ..doc }
}

/// The JSON value a control value is recorded as.
pub open spec fn control_json(v: ControlValueV) -> JsonV {
    match v {
        ControlValueV::Number(n) => JsonV::Number(n),
        ControlValueV::Bool(b) => JsonV::Bool(b),
        ControlValueV::String(s) => JsonV::String(s),
    }
}

/// First member named `key`.
pub open spec fn find_member(m: Seq<(Seq<char>, JsonV)>, key: Seq<char>, k: int) -> Option<int>
    decreases m.len() - k,
{
    if k < 0 || k >= m.len() {
        None
    } else if m[k].0 == key {
        Some(k)
    } else {
        find_member(m, key, k + 1)
    }
}

/// An object's members after setting `key`: replaced in place, or appended.
pub open spec fn set_member(m: Seq<(Seq<char>, JsonV)>, key: Seq<char>, v: JsonV) -> Seq<(Seq<char>, JsonV)> {
    match find_member(m, key, 0) {
        Some(k) => m.update(k, (key, v)),
        None => m.push((key, v)),
    }
}

/// A config with `key` set to `v`; a config that is not an object first
/// becomes an empty one.
pub open spec fn config_with(config: JsonV, key: Seq<char>, v: JsonV) -> JsonV {
    match config {
        JsonV::Object(m) => JsonV::Object(set_member(m, key, v)),
        _ => JsonV::Object(seq![(key, v)]),
    }
}

/// The document's module list after a control write on module `id`.
pub open spec fn write_control_specs(s: Seq<ModuleSpecV>, id: Seq<char>, key: Seq<char>, v: ControlValueV) -> Seq<ModuleSpecV> {
    match find_spec(s, id, 0) {
        Some(k) => s.update(k, ModuleSpecV { config: config_with(s[k].config, key, control_json(v)), ..s[k] }),
        None => s,
    }
}

/// A port name as the document writes it: an empty name is absent.
pub open spec fn port_opt(p: Seq<char>) -> Option<Seq<char>> {
    if p.len() == 0 { None } else { Some(p) }
}

/// A live connection as a document connection.
pub open spec fn doc_conn(c: (Seq<char>, Seq<char>, Seq<char>, Seq<char>)) -> ConnectionV {
    ConnectionV { from: c.0, to: c.2, from_port: port_opt(c.1), to_port: port_opt(c.3) }
}

/// [`RuntimeState`] as plain values.
pub struct RuntimeStateV {
    pub modules: Seq<(Seq<char>, Seq<char>, JsonV)>,
    pub connections: Seq<(Seq<char>, Seq<char>, Seq<char>, Seq<char>)>,
    pub sample_rate: u32,
    pub running: bool,
    pub document: Option<InventionV>,
}

/// Authoritative runtime-owned snapshot of modules, connections and status,
/// with the declarative document the graph was built from (kept in sync
/// with live edits so the graph can be written back without losing the
/// document's other sections).
pub struct RuntimeState {
    /// Modules in insertion order, at most one per id.
    pub modules: Vec<RuntimeModuleInfo>,
    pub connections: Vec<RuntimeConnectionInfo>,
    pub sample_rate: u32,
    pub running: bool,
    pub document: Option<Invention>,
}

pub open spec fn doc_view(d: Option<Invention>) -> Option<InventionV> {
    match d {
        Some(x) => Some(x.view()),
        None => None,
    }
}

impl RuntimeState {
    pub open spec fn view(&self) -> RuntimeStateV {
        RuntimeStateV {
            modules: infos_view(self.modules@),
            connections: conns_view(self.connections@),
            sample_rate: self.sample_rate,
            running: self.running,
            document: doc_view(self.document),
        }
    }

    /// Module ids are unique.
    pub open spec fn wf(&self) -> bool {
        ids_unique(infos_view(self.modules@))
    }
}

// ---------------------------------------------------------------------------
// Proof helpers

proof fn lemma_find_info(s: Seq<(Seq<char>, Seq<char>, JsonV)>, id: Seq<char>, k: int)
    requires
        0 <= k,
    ensures
        find_info(s, id, k) matches Some(j) ==> k <= j < s.len() && s[j].0 == id
            && forall|i: int| k <= i < j ==> s[i].0 != id,
        find_info(s, id, k) is None ==> forall|i: int| k <= i < s.len() ==> s[i].0 != id,
    decreases s.len() - k,
{
    if k < s.len() && s[k].0 != id {
        lemma_find_info(s, id, k + 1);
    }
}

proof fn lemma_find_spec(s: Seq<ModuleSpecV>, id: Seq<char>, k: int)
    requires
        0 <= k,
    ensures
        find_spec(s, id, k) matches Some(j) ==> k <= j < s.len() && s[j].id == id
            && forall|i: int| k <= i < j ==> s[i].id != id,
        find_spec(s, id, k) is None ==> forall|i: int| k <= i < s.len() ==> s[i].id != id,
    decreases s.len() - k,
{
    if k < s.len() && s[k].id != id {
        lemma_find_spec(s, id, k + 1);
    }
}

proof fn lemma_find_member(m: Seq<(Seq<char>, JsonV)>, key: Seq<char>, k: int)
    requires
        0 <= k,
    ensures
        find_member(m, key, k) matches Some(j) ==> k <= j < m.len() && m[j].0 == key
            && forall|i: int| k <= i < j ==> m[i].0 != key,
        find_member(m, key, k) is None ==> forall|i: int| k <= i < m.len() ==> m[i].0 != key,
    decreases m.len() - k,
{
    if k < m.len() && m[k].0 != key {
        lemma_find_member(m, key, k + 1);
    }
}

/// Every kept entry satisfies the predicate, and the kept entries are
/// entries of the input.
proof fn lemma_filter_sub<A>(s: Seq<A>, p: spec_fn(A) -> bool)
    ensures
        forall|i: int| 0 <= i < s.filter(p).len() ==> p(#[trigger] s.filter(p)[i]),
        forall|x: A| #[trigger] s.filter(p).contains(x) ==> s.contains(x),
{
    assert forall|i: int| 0 <= i < s.filter(p).len() implies p(#[trigger] s.filter(p)[i]) by {
        s.lemma_filter_pred(p, i);
    }
    assert forall|x: A| #[trigger] s.filter(p).contains(x) implies s.contains(x) by {
        s.lemma_filter_contains_rev(p, x);
    }
}

/// Filtering keeps module ids unique.
proof fn lemma_filter_unique(s: Seq<(Seq<char>, Seq<char>, JsonV)>, p: spec_fn((Seq<char>, Seq<char>, JsonV)) -> bool)
    requires
        ids_unique(s),
    ensures
        ids_unique(s.filter(p)),
    decreases s.len(),
{
    reveal_with_fuel(Seq::filter, 1);
    if s.len() > 0 {
        let d = s.drop_last();
        assert(ids_unique(d));
        lemma_filter_unique(d, p);
        lemma_filter_sub(d, p);
        let f = d.filter(p);
        if p(s.last()) {
            assert forall|i: int, j: int| 0 <= i < j < s.filter(p).len() implies s.filter(p)[i].0 != s.filter(p)[j].0 by {
                if j == f.len() {
                    assert(f.contains(f[i]));
                    assert(d.contains(f[i]));
                    let k = choose|k: int| 0 <= k < d.len() && d[k] == f[i];
                    assert(s[k].0 != s[s.len() - 1].0);
                } else {
                    assert(s.filter(p)[i] == f[i]);
                    assert(s.filter(p)[j] == f[j]);
                }
            }
        }
    }
}

/// One more step of a filter over a prefix.
proof fn lemma_filter_step<A>(s: Seq<A>, p: spec_fn(A) -> bool, i: int)
    requires
        0 <= i < s.len(),
    ensures
        s.take(i + 1).filter(p) == (if p(s[i]) { s.take(i).filter(p).push(s[i]) } else { s.take(i).filter(p) }),
{
    reveal_with_fuel(Seq::filter, 1);
    assert(s.take(i + 1).drop_last() =~= s.take(i));
    assert(s.take(i + 1).last() == s[i]);
}

// ---------------------------------------------------------------------------
// Status and module bookkeeping

impl RuntimeState {
    /// An empty state for a graph at `sample_rate`, not running, with no
    /// retained document.
    pub fn new(sample_rate: u32) -> (r: Self)
        ensures
            r.view().modules.len() == 0,
            r.view().connections.len() == 0,
            r.sample_rate == sample_rate,
            !r.running,
            r.document is None,
            r.wf(),
    {
        RuntimeState { modules: Vec::new(), connections: Vec::new(), sample_rate, running: false, document: None }
    }

    /// Builds a summary view suitable for tooling and scripting APIs.
    pub fn status(&self) -> (r: RuntimeStatus)
        ensures
            r.running == self.running,
            r.sample_rate == self.sample_rate,
            r.module_count == self.modules@.len(),
            r.connection_count == self.connections@.len(),
    {
        RuntimeStatus {
            running: self.running,
            sample_rate: self.sample_rate,
            module_count: self.modules.len(),
            connection_count: self.connections.len(),
        }
    }

    /// Whether module `id` is in the graph.
    pub fn has_module(&self, id: &String) -> (r: bool)
        ensures
            r == (find_info(self.view().modules, id@, 0) is Some),
            r == exists|i: int| 0 <= i < self.modules@.len() && self.view().modules[i].0 == id@,
    {
        proof {
            lemma_find_info(self.view().modules, id@, 0);
        }
        find_info_exec(&self.modules, id).is_some()
    }

    /// Records module `id` in the module list (replacing an entry with the
    /// same id in place, else appending).
    pub fn insert_module_info(&mut self, id: &String, module_type: &String, config: &Json)
        ensures
            final(self).view().modules == upsert_info(old(self).view().modules, info_of(id@, module_type@, config.view())),
            final(self).connections == old(self).connections,
            final(self).document == old(self).document,
            final(self).sample_rate == old(self).sample_rate,
            final(self).running == old(self).running,
            old(self).wf() ==> final(self).wf(),
    {
        let info = RuntimeModuleInfo { id: copy_string(id), module_type: copy_string(module_type), config: json_clone(config) };
        let ghost before = self.view().modules;
        proof {
            lemma_find_info(before, id@, 0);
        }
        match find_info_exec(&self.modules, id) {
            Some(k) => {
                self.modules.set(k, info);
                proof {
                    assert(self.view().modules =~= before.update(k as int, info_of(id@, module_type@, config.view())));
                }
            },
            None => {
                self.modules.push(info);
                proof {
                    assert(self.view().modules =~= before.push(info_of(id@, module_type@, config.view())));
                }
            },
        }
    }

    /// Removes module `id` from the module list, order kept.
    pub fn remove_module_info(&mut self, id: &String)
        ensures
            final(self).view().modules == remove_info(old(self).view().modules, id@),
            final(self).connections == old(self).connections,
            final(self).document == old(self).document,
            final(self).sample_rate == old(self).sample_rate,
            final(self).running == old(self).running,
            old(self).wf() ==> final(self).wf(),
    {
        let ghost s = self.view().modules;
        let mut kept: Vec<RuntimeModuleInfo> = Vec::new();
        let mut i: usize = 0;
        while i < self.modules.len()
            invariant
                i <= self.modules@.len(),
                s == infos_view(self.modules@),
                infos_view(kept@) == s.take(i as int).filter(other_id(id@)),
            decreases self.modules.len() - i,
        {
            proof {
                lemma_filter_step(s, other_id(id@), i as int);
            }
            if !str_equal(self.modules[i].id.as_str(), id.as_str()) {
                let m = &self.modules[i];
                let ghost before = kept@;
                kept.push(RuntimeModuleInfo { id: copy_string(&m.id), module_type: copy_string(&m.module_type), config: json_clone(&m.config) });
                proof {
                    assert(infos_view(kept@) =~= infos_view(before).push(s[i as int]));
                }
            }
            i = i + 1;
        }
        proof {
            assert(s.take(s.len() as int) =~= s);
            if ids_unique(s) {
                lemma_filter_unique(s, other_id(id@));
            }
        }
        self.modules = kept;
    }
}

// ---------------------------------------------------------------------------
// Connection bookkeeping

fn keep_not_touching(conns: &Vec<RuntimeConnectionInfo>, id: &String, touching_wanted: bool) -> (r: Vec<RuntimeConnectionInfo>)
    ensures
        touching_wanted ==> conns_view(r@) == conns_view(conns@).filter(touching(id@)),
        !touching_wanted ==> conns_view(r@) == conns_view(conns@).filter(not_touching(id@)),
{
    let ghost s = conns_view(conns@);
    let ghost p = if touching_wanted { touching(id@) } else { not_touching(id@) };
    let mut r: Vec<RuntimeConnectionInfo> = Vec::new();
    let mut i: usize = 0;
    while i < conns.len()
        invariant
            i <= conns@.len(),
            s == conns_view(conns@),
            p == (if touching_wanted { touching(id@) } else { not_touching(id@) }),
            conns_view(r@) == s.take(i as int).filter(p),
        decreases conns.len() - i,
    {
        proof {
            lemma_filter_step(s, p, i as int);
        }
        let c = &conns[i];
        let t = str_equal(c.from.as_str(), id.as_str()) || str_equal(c.to.as_str(), id.as_str());
        if t == touching_wanted {
            let ghost before = r@;
            r.push(conn_copy(c));
            proof {
                assert(conns_view(r@) =~= conns_view(before).push(s[i as int]));
            }
        }
        i = i + 1;
    }
    proof {
        assert(s.take(s.len() as int) =~= s);
    }
    r
}

/// The connections with module `id` at either end, in order.
pub fn related_connections(conns: &Vec<RuntimeConnectionInfo>, id: &String) -> (r: Vec<RuntimeConnectionInfo>)
    ensures
        conns_view(r@) == conns_view(conns@).filter(touching(id@)),
{
    keep_not_touching(conns, id, true)
}

impl RuntimeState {
    /// Records a new connection.
    pub fn add_connection(&mut self, conn: &RuntimeConnectionInfo)
        ensures
            final(self).view().connections == old(self).view().connections.push(conn_view(*conn)),
            final(self).modules == old(self).modules,
            final(self).document == old(self).document,
            final(self).sample_rate == old(self).sample_rate,
            final(self).running == old(self).running,
    {
        let ghost before = self.view().connections;
        self.connections.push(conn_copy(conn));
        proof {
            assert(self.view().connections =~= before.push(conn_view(*conn)));
        }
    }

    /// Forgets every copy of one connection.
    pub fn remove_connection(&mut self, conn: &RuntimeConnectionInfo)
        ensures
            final(self).view().connections == old(self).view().connections.filter(other_conn(conn_view(*conn))),
            final(self).modules == old(self).modules,
            final(self).document == old(self).document,
            final(self).sample_rate == old(self).sample_rate,
            final(self).running == old(self).running,
    {
        let ghost s = self.view().connections;
        let ghost p = other_conn(conn_view(*conn));
        let mut kept: Vec<RuntimeConnectionInfo> = Vec::new();
        let mut i: usize = 0;
        while i < self.connections.len()
            invariant
                i <= self.connections@.len(),
                s == conns_view(self.connections@),
                p == other_conn(conn_view(*conn)),
                conns_view(kept@) == s.take(i as int).filter(p),
            decreases self.connections.len() - i,
        {
            proof {
                lemma_filter_step(s, p, i as int);
            }
            let c = &self.connections[i];
            let same = str_equal(c.from.as_str(), conn.from.as_str()) && str_equal(c.from_port.as_str(), conn.from_port.as_str())
                && str_equal(c.to.as_str(), conn.to.as_str()) && str_equal(c.to_port.as_str(), conn.to_port.as_str());
            if !same {
                let ghost before = kept@;
                kept.push(conn_copy(c));
                proof {
                    assert(conns_view(kept@) =~= conns_view(before).push(s[i as int]));
                }
            }
            i = i + 1;
        }
        proof {
            assert(s.take(s.len() as int) =~= s);
        }
        self.connections = kept;
    }

    /// Forgets every connection with module `id` at either end.
    pub fn remove_connections_of(&mut self, id: &String)
        ensures
            final(self).view().connections == old(self).view().connections.filter(not_touching(id@)),
            final(self).modules == old(self).modules,
            final(self).document == old(self).document,
            final(self).sample_rate == old(self).sample_rate,
            final(self).running == old(self).running,
    {
        let kept = keep_not_touching(&self.connections, id, false);
        self.connections = kept;
    }
}


// ---------------------------------------------------------------------------
// The retained document

fn find_spec_exec(s: &Vec<ModuleSpec>, id: &String) -> (r: Option<usize>)
    ensures
        r matches Some(k) ==> k < s@.len() && find_spec(Seq::new(s@.len(), |i: int| s@[i].view()), id@, 0) == Some(k as int),
        r is None ==> find_spec(Seq::new(s@.len(), |i: int| s@[i].view()), id@, 0) is None,
{
    let ghost v = Seq::new(s@.len(), |i: int| s@[i].view());
    let mut i: usize = 0;
    while i < s.len()
        invariant
            i <= s@.len(),
            v == Seq::new(s@.len(), |i: int| s@[i].view()),
            find_spec(v, id@, 0) == find_spec(v, id@, i as int),
        decreases s.len() - i,
    {
        if str_equal(s[i].id.as_str(), id.as_str()) {
            return Some(i);
        }
        i = i + 1;
    }
    None
}

/// The document's modules as plain values.
pub open spec fn specs_of(doc: Invention) -> Seq<ModuleSpecV> {
    Seq::new(doc.modules@.len(), |i: int| doc.modules@[i].view())
}

/// `doc` with its connection list replaced.
pub open spec fn with_connections(doc: InventionV, connections: Seq<ConnectionV>) -> InventionV {
    InventionV { connections, ..doc }
}

/// Live connections as document connections.
pub open spec fn doc_connections(c: Seq<(Seq<char>, Seq<char>, Seq<char>, Seq<char>)>) -> Seq<ConnectionV> {
    Seq::new(c.len(), |i: int| doc_conn(c[i]))
}

/// The document after an edit of its module list.
pub open spec fn doc_modules_edit(d: Option<InventionV>, modules: spec_fn(Seq<ModuleSpecV>) -> Seq<ModuleSpecV>) -> Option<InventionV> {
    match d {
        Some(doc) => Some(with_modules(doc, modules(doc.modules))),
        None => None,
    }
}

pub open spec fn upsert_edit(id: Seq<char>, module_type: Seq<char>, config: JsonV) -> spec_fn(Seq<ModuleSpecV>) -> Seq<ModuleSpecV> {
    |s: Seq<ModuleSpecV>| upsert_spec(s, id, module_type, config)
}

pub open spec fn remove_edit(id: Seq<char>) -> spec_fn(Seq<ModuleSpecV>) -> Seq<ModuleSpecV> {
    |s: Seq<ModuleSpecV>| s.filter(other_spec(id))
}

pub open spec fn write_edit(id: Seq<char>, key: Seq<char>, v: ControlValueV) -> spec_fn(Seq<ModuleSpecV>) -> Seq<ModuleSpecV> {
    |s: Seq<ModuleSpecV>| write_control_specs(s, id, key, v)
}

fn control_json_exec(v: &ControlValue) -> (r: Json)
    ensures
        r.view() == control_json(v.view()),
{
    match v {
        ControlValue::Number(n) => Json::Number(*n),
        ControlValue::Bool(b) => Json::Bool(*b),
        ControlValue::String(t) => Json::String(copy_string(t)),
    }
}

fn find_member_exec(m: &Vec<(String, Json)>, key: &String) -> (r: Option<usize>)
    ensures
        r matches Some(k) ==> k < m@.len() && find_member(members_view(m@), key@, 0) == Some(k as int),
        r is None ==> find_member(members_view(m@), key@, 0) is None,
{
    let ghost mv = members_view(m@);
    proof {
        lemma_members_view(m@);
    }
    let mut j: usize = 0;
    while j < m.len()
        invariant
            j <= m@.len(),
            mv == members_view(m@),
            mv.len() == m@.len(),
            forall|k: int| 0 <= k < m@.len() ==> #[trigger] mv[k] == (m@[k].0@, m@[k].1.view()),
            find_member(mv, key@, 0) == find_member(mv, key@, j as int),
        decreases m.len() - j,
    {
        if str_equal(m[j].0.as_str(), key.as_str()) {
            return Some(j);
        }
        j = j + 1;
    }
    None
}

fn config_with_exec(config: &Json, key: &String, v: Json) -> (r: Json)
    ensures
        r.view() == config_with(config.view(), key@, v.view()),
{
    match config {
        Json::Object(m) => {
            let mut out: Vec<(String, Json)> = Vec::new();
            let mut i: usize = 0;
            proof {
                lemma_members_view(m@);
            }
            while i < m.len()
                invariant
                    i <= m@.len(),
                    out@.len() == i,
                    members_view(m@).len() == m@.len(),
                    forall|k: int| 0 <= k < i ==> (#[trigger] out@[k]).0@ == m@[k].0@ && out@[k].1.view() == m@[k].1.view(),
                decreases m.len() - i,
            {
                out.push((copy_string(&m[i].0), json_clone(&m[i].1)));
                i = i + 1;
            }
            let ghost mv = members_view(m@);
            proof {
                lemma_members_view(m@);
                lemma_members_view(out@);
                assert(members_view(out@) =~= mv);
                lemma_find_member(mv, key@, 0);
            }
            let found = find_member_exec(&out, key);
            let ghost vv = v.view();
            match found {
                Some(k) => {
                    let ghost before = out@;
                    out.set(k, (copy_string(key), v));
                    proof {
                        lemma_members_view(out@);
                        lemma_members_view(before);
                        assert(members_view(out@) =~= mv.update(k as int, (key@, vv)));
                    }
                },
                None => {
                    let ghost before = out@;
                    out.push((copy_string(key), v));
                    proof {
                        lemma_members_view(out@);
                        lemma_members_view(before);
                        assert(members_view(out@) =~= mv.push((key@, vv)));
                    }
                },
            }
            Json::Object(out)
        },
        _ => {
            let ghost vv = v.view();
            let mut out: Vec<(String, Json)> = Vec::new();
            out.push((copy_string(key), v));
            proof {
                lemma_members_view(out@);
                assert(members_view(out@) =~= seq![(key@, vv)]);
            }
            Json::Object(out)
        },
    }
}

/// Keeps the module-list edit of a document in one place: `doc` with
/// `modules` in place of its module list has the edited view.
proof fn lemma_doc_modules(old_doc: Invention, new_doc: Invention)
    requires
        new_doc.version == old_doc.version,
        new_doc.title == old_doc.title,
        new_doc.description == old_doc.description,
        new_doc.developments == old_doc.developments,
        new_doc.assets == old_doc.assets,
        new_doc.connections == old_doc.connections,
        new_doc.inputs == old_doc.inputs,
        new_doc.outputs == old_doc.outputs,
        new_doc.controls == old_doc.controls,
        new_doc.source_path == old_doc.source_path,
    ensures
        new_doc.view() == with_modules(old_doc.view(), specs_of(new_doc)),
{
    assert(new_doc.view().modules =~= specs_of(new_doc));
}

impl RuntimeState {
    /// Records a module added, replaced or swapped at runtime in the retained
    /// document.
    pub fn document_upsert_module(&mut self, id: &String, module_type: &String, config: &Json)
        ensures
            final(self).view().document == doc_modules_edit(old(self).view().document, upsert_edit(id@, module_type@, config.view())),
            final(self).modules == old(self).modules,
            final(self).connections == old(self).connections,
            final(self).sample_rate == old(self).sample_rate,
            final(self).running == old(self).running,
    {
        let taken = self.document.take();
        match taken {
            Some(doc) => {
                let ghost old_doc = doc;
                let ghost sv = specs_of(doc);
                let mut doc = doc;
                proof {
                    lemma_find_spec(sv, id@, 0);
                }
                match find_spec_exec(&doc.modules, id) {
                    Some(k) => {
                        let new_spec = ModuleSpec { id: copy_string(&doc.modules[k].id), module_type: copy_string(module_type), config: json_clone(config) };
                        doc.modules.set(k, new_spec);
                        proof {
                            assert(specs_of(doc) =~= upsert_spec(sv, id@, module_type@, config.view()));
                        }
                    },
                    None => {
                        doc.modules.push(ModuleSpec { id: copy_string(id), module_type: copy_string(module_type), config: json_clone(config) });
                        proof {
                            assert(specs_of(doc) =~= upsert_spec(sv, id@, module_type@, config.view()));
                        }
                    },
                }
                proof {
                    lemma_doc_modules(old_doc, doc);
                }
                self.document = Some(doc);
            },
            None => {},
        }
    }

    /// Removes module `id` from the retained document.
    pub fn document_remove_module(&mut self, id: &String)
        ensures
            final(self).view().document == doc_modules_edit(old(self).view().document, remove_edit(id@)),
            final(self).modules == old(self).modules,
            final(self).connections == old(self).connections,
            final(self).sample_rate == old(self).sample_rate,
            final(self).running == old(self).running,
    {
        let taken = self.document.take();
        match taken {
            Some(doc) => {
                let ghost old_doc = doc;
                let ghost sv = specs_of(doc);
                let mut doc = doc;
                let mut kept: Vec<ModuleSpec> = Vec::new();
                let mut i: usize = 0;
                while i < doc.modules.len()
                    invariant
                        i <= doc.modules@.len(),
                        doc == old_doc,
                        sv == specs_of(doc),
                        Seq::new(kept@.len(), |k: int| kept@[k].view()) == sv.take(i as int).filter(other_spec(id@)),
                    decreases doc.modules.len() - i,
                {
                    proof {
                        lemma_filter_step(sv, other_spec(id@), i as int);
                    }
                    if !str_equal(doc.modules[i].id.as_str(), id.as_str()) {
                        let ghost before = kept@;
                        kept.push(crate::invention::module_spec_clone(&doc.modules[i]));
                        proof {
                            assert(Seq::new(kept@.len(), |k: int| kept@[k].view())
                                =~= Seq::new(before.len(), |k: int| before[k].view()).push(sv[i as int]));
                        }
                    }
                    i = i + 1;
                }
                proof {
                    assert(sv.take(sv.len() as int) =~= sv);
                }
                doc.modules = kept;
                proof {
                    lemma_doc_modules(old_doc, doc);
                }
                self.document = Some(doc);
            },
            None => {},
        }
    }

    /// Writes a control change into the retained document module's config so
    /// a saved document reproduces the value on a cold rebuild. A config
    /// that is not an object becomes one first.
    pub fn document_write_control(&mut self, id: &String, key: &String, value: &ControlValue)
        ensures
            final(self).view().document == doc_modules_edit(old(self).view().document, write_edit(id@, key@, value.view())),
            final(self).modules == old(self).modules,
            final(self).connections == old(self).connections,
            final(self).sample_rate == old(self).sample_rate,
            final(self).running == old(self).running,
    {
        let taken = self.document.take();
        match taken {
            Some(doc) => {
                let ghost old_doc = doc;
                let ghost sv = specs_of(doc);
                let mut doc = doc;
                proof {
                    lemma_find_spec(sv, id@, 0);
                }
                match find_spec_exec(&doc.modules, id) {
                    Some(k) => {
                        let config = config_with_exec(&doc.modules[k].config, key, control_json_exec(value));
                        let new_spec = ModuleSpec {
                            id: copy_string(&doc.modules[k].id),
                            module_type: copy_string(&doc.modules[k].module_type),
                            config,
                        };
                        doc.modules.set(k, new_spec);
                        proof {
                            assert(specs_of(doc) =~= write_control_specs(sv, id@, key@, value.view()));
                        }
                    },
                    None => {
                        proof {
                            assert(specs_of(doc) =~= write_control_specs(sv, id@, key@, value.view()));
                        }
                    },
                }
                proof {
                    lemma_doc_modules(old_doc, doc);
                }
                self.document = Some(doc);
            },
            None => {},
        }
    }

    /// The retained declarative document with its connections mirrored from
    /// the live graph (an empty port name is written as absent); `None`
    /// when no document was retained.
    pub fn document(&self) -> (r: Option<Invention>)
        ensures
            match self.view().document {
                Some(d) => r matches Some(x) && x.view() == with_connections(d, doc_connections(self.view().connections)),
                None => r is None,
            },
    {
        match &self.document {
            Some(d) => {
                let mut doc = invention_clone(d);
                let ghost cloned = doc;
                let mut conns: Vec<InventionConnection> = Vec::new();
                let mut i: usize = 0;
                while i < self.connections.len()
                    invariant
                        i <= self.connections@.len(),
                        conns@.len() == i,
                        forall|k: int| 0 <= k < i ==> (#[trigger] conns@[k]).view() == doc_conn(conn_view(self.connections@[k])),
                    decreases self.connections.len() - i,
                {
                    let c = &self.connections[i];
                    let from_port = if c.from_port.as_str().unicode_len() == 0 { None } else { Some(copy_string(&c.from_port)) };
                    let to_port = if c.to_port.as_str().unicode_len() == 0 { None } else { Some(copy_string(&c.to_port)) };
                    conns.push(InventionConnection { from: copy_string(&c.from), to: copy_string(&c.to), from_port, to_port });
                    i = i + 1;
                }
                doc.connections = conns;
                proof {
                    assert(doc.view().connections =~= doc_connections(self.view().connections));
                    assert(doc.view() =~= with_connections(cloned.view(), doc_connections(self.view().connections)));
                }
                Some(doc)
            },
            None => None,
        }
    }
}


// ---------------------------------------------------------------------------
// Module ports and live edits

/// A module's port names.
pub struct ModulePorts {
    pub inputs: Vec<String>,
    pub outputs: Vec<String>,
}

/// Port names of the modules in a graph, by module id in insertion order.
pub struct PortDirectory {
    pub entries: Vec<(String, ModulePorts)>,
}

/// [`PortDirectory`] as plain values: id, input names, output names.
pub open spec fn ports_view(e: Seq<(String, ModulePorts)>) -> Seq<(Seq<char>, Seq<Seq<char>>, Seq<Seq<char>>)> {
    Seq::new(e.len(), |i: int| (e[i].0@, crate::topology::names(e[i].1.inputs@), crate::topology::names(e[i].1.outputs@)))
}

/// First entry for module `id`.
pub open spec fn find_ports(s: Seq<(Seq<char>, Seq<Seq<char>>, Seq<Seq<char>>)>, id: Seq<char>, k: int) -> Option<int>
    decreases s.len() - k,
{
    if k < 0 || k >= s.len() {
        None
    } else if s[k].0 == id {
        Some(k)
    } else {
        find_ports(s, id, k + 1)
    }
}

/// `names` in their `Debug` form: quoted, comma separated, in brackets.
pub open spec fn debug_names(names: Seq<Seq<char>>) -> Seq<char> {
    "["@ + joined_quoted(names, names.len()) + "]"@
}

/// The first `k` names quoted and separated by ", ".
pub open spec fn joined_quoted(names: Seq<Seq<char>>, k: nat) -> Seq<char>
    decreases k,
{
    if k == 0 || k > names.len() {
        Seq::empty()
    } else if k == 1 {
        crate::module::quoted(names[0])
    } else {
        joined_quoted(names, (k - 1) as nat) + ", "@ + crate::module::quoted(names[k - 1])
    }
}

/// The error for a connection end naming a port the module lacks.
pub open spec fn missing_port_msg(module: Seq<char>, direction: Seq<char>, port: Seq<char>, available: Seq<Seq<char>>) -> Seq<char> {
    "module '"@ + module + "' does not have "@ + direction + " port '"@ + port + "' (available: "@
        + debug_names(available) + ")"@
}

/// The outcome of checking a connection against the port directory.
pub open spec fn check_connection_spec(
    s: Seq<(Seq<char>, Seq<Seq<char>>, Seq<Seq<char>>)>,
    from: Seq<char>,
    from_port: Seq<char>,
    to: Seq<char>,
    to_port: Seq<char>,
) -> Result<(), (int, Seq<char>)> {
    match find_ports(s, from, 0) {
        None => Err((0, from)),
        Some(a) => if !s[a].2.contains(from_port) {
            Err((1, missing_port_msg(from, "output"@, from_port, s[a].2)))
        } else {
            match find_ports(s, to, 0) {
                None => Err((0, to)),
                Some(b) => if !s[b].1.contains(to_port) {
                    Err((1, missing_port_msg(to, "input"@, to_port, s[b].1)))
                } else {
                    Ok(())
                },
            }
        },
    }
}

/// A graph-command error as the check above classifies it: kind 0 is an
/// unknown module, kind 1 an invalid port.
pub open spec fn as_command_error(e: (int, Seq<char>), r: crate::runtime::GraphCommandError) -> bool {
    if e.0 == 0 {
        r matches crate::runtime::GraphCommandError::UnknownModule(m) && m@ == e.1
    } else {
        r matches crate::runtime::GraphCommandError::InvalidPort(m) && m@ == e.1
    }
}

fn copy_names(v: &Vec<String>) -> (r: Vec<String>)
    ensures
        crate::topology::names(r@) == crate::topology::names(v@),
{
    let mut r: Vec<String> = Vec::new();
    let mut i: usize = 0;
    while i < v.len()
        invariant
            i <= v@.len(),
            r@.len() == i,
            forall|k: int| 0 <= k < i ==> (#[trigger] r@[k])@ == v@[k]@,
        decreases v.len() - i,
    {
        r.push(copy_string(&v[i]));
        i = i + 1;
    }
    proof {
        assert(crate::topology::names(r@) =~= crate::topology::names(v@));
    }
    r
}

fn find_ports_exec(e: &Vec<(String, ModulePorts)>, id: &str) -> (r: Option<usize>)
    ensures
        r matches Some(k) ==> k < e@.len() && find_ports(ports_view(e@), id@, 0) == Some(k as int),
        r is None ==> find_ports(ports_view(e@), id@, 0) is None,
{
    let ghost v = ports_view(e@);
    let mut i: usize = 0;
    while i < e.len()
        invariant
            i <= e@.len(),
            v == ports_view(e@),
            find_ports(v, id@, 0) == find_ports(v, id@, i as int),
        decreases e.len() - i,
    {
        if str_equal(e[i].0.as_str(), id) {
            return Some(i);
        }
        i = i + 1;
    }
    None
}

pub(crate) fn has_name(v: &Vec<String>, x: &str) -> (r: bool)
    ensures
        r == crate::topology::names(v@).contains(x@),
{
    let mut i: usize = 0;
    while i < v.len()
        invariant
            i <= v@.len(),
            forall|k: int| 0 <= k < i ==> v@[k]@ != x@,
        decreases v.len() - i,
    {
        if str_equal(v[i].as_str(), x) {
            proof {
                assert(crate::topology::names(v@)[i as int] == x@);
            }
            return true;
        }
        i = i + 1;
    }
    proof {
        if crate::topology::names(v@).contains(x@) {
            let k = choose|k: int| 0 <= k < v@.len() && crate::topology::names(v@)[k] == x@;
            assert(v@[k]@ == x@);
        }
    }
    false
}

fn missing_port_text(module: &str, direction: &str, port: &str, available: &Vec<String>) -> (r: String)
    ensures
        r@ == missing_port_msg(module@, direction@, port@, crate::topology::names(available@)),
{
    let ghost names = crate::topology::names(available@);
    let mut msg: Vec<char> = Vec::new();
    crate::text::push_str(&mut msg, "module '");
    crate::text::push_str(&mut msg, module);
    crate::text::push_str(&mut msg, "' does not have ");
    crate::text::push_str(&mut msg, direction);
    crate::text::push_str(&mut msg, " port '");
    crate::text::push_str(&mut msg, port);
    crate::text::push_str(&mut msg, "' (available: ");
    crate::text::push_str(&mut msg, "[");
    let ghost head = msg@;
    let mut k: usize = 0;
    while k < available.len()
        invariant
            k <= available@.len(),
            names == crate::topology::names(available@),
            msg@ == head + joined_quoted(names, k as nat),
        decreases available.len() - k,
    {
        if k > 0 {
            crate::text::push_str(&mut msg, ", ");
        }
        crate::module::push_quoted(&mut msg, available[k].as_str());
        k = k + 1;
        proof {
            assert(names[k - 1] == available@[k - 1]@);
            assert(msg@ =~= head + joined_quoted(names, k as nat));
        }
    }
    crate::text::push_str(&mut msg, "]");
    crate::text::push_str(&mut msg, ")");
    proof {
        assert(names.len() == available@.len());
        assert(msg@ =~= missing_port_msg(module@, direction@, port@, names));
    }
    crate::text::string_of(&msg)
}

impl PortDirectory {
    /// An empty directory.
    pub fn new() -> (r: Self)
        ensures
            r.entries@.len() == 0,
    {
        PortDirectory { entries: Vec::new() }
    }

    /// Records module `id`'s ports, replacing an entry for the same id in
    /// place, else appending.
    pub fn insert(&mut self, id: &String, ports: &ModulePorts)
        ensures
            ports_view(final(self).entries@) == (match find_ports(ports_view(old(self).entries@), id@, 0) {
                Some(k) => ports_view(old(self).entries@).update(k, (id@, crate::topology::names(ports.inputs@), crate::topology::names(ports.outputs@))),
                None => ports_view(old(self).entries@).push((id@, crate::topology::names(ports.inputs@), crate::topology::names(ports.outputs@))),
            }),
    {
        let ghost before = ports_view(self.entries@);
        let entry = (copy_string(id), ModulePorts { inputs: copy_names(&ports.inputs), outputs: copy_names(&ports.outputs) });
        match find_ports_exec(&self.entries, id.as_str()) {
            Some(k) => {
                self.entries.set(k, entry);
            },
            None => {
                self.entries.push(entry);
            },
        }
        proof {
            assert(ports_view(self.entries@) =~= (match find_ports(before, id@, 0) {
                Some(k) => before.update(k, (id@, crate::topology::names(ports.inputs@), crate::topology::names(ports.outputs@))),
                None => before.push((id@, crate::topology::names(ports.inputs@), crate::topology::names(ports.outputs@))),
            }));
        }
    }

    /// Forgets module `id`'s ports, order of the others kept.
    pub fn remove(&mut self, id: &String)
        ensures
            ports_view(final(self).entries@) == ports_view(old(self).entries@).filter(
                |e: (Seq<char>, Seq<Seq<char>>, Seq<Seq<char>>)| e.0 != id@),
    {
        let ghost s = ports_view(self.entries@);
        let ghost p = |e: (Seq<char>, Seq<Seq<char>>, Seq<Seq<char>>)| e.0 != id@;
        let mut kept: Vec<(String, ModulePorts)> = Vec::new();
        let mut i: usize = 0;
        while i < self.entries.len()
            invariant
                i <= self.entries@.len(),
                s == ports_view(self.entries@),
                p == (|e: (Seq<char>, Seq<Seq<char>>, Seq<Seq<char>>)| e.0 != id@),
                ports_view(kept@) == s.take(i as int).filter(p),
            decreases self.entries.len() - i,
        {
            proof {
                lemma_filter_step(s, p, i as int);
            }
            let e = &self.entries[i];
            if !str_equal(e.0.as_str(), id.as_str()) {
                let ghost before = kept@;
                kept.push((copy_string(&e.0), ModulePorts { inputs: copy_names(&e.1.inputs), outputs: copy_names(&e.1.outputs) }));
                proof {
                    assert(ports_view(kept@) =~= ports_view(before).push(s[i as int]));
                }
            }
            i = i + 1;
        }
        proof {
            assert(s.take(s.len() as int) =~= s);
        }
        self.entries = kept;
    }

    /// Checks a connection before it is sent to the graph: both modules must
    /// be known and have the named ports. The source is checked first.
    pub fn check_connection(&self, from: &str, from_port: &str, to: &str, to_port: &str)
        -> (r: Result<(), crate::runtime::GraphCommandError>)
        ensures
            match check_connection_spec(ports_view(self.entries@), from@, from_port@, to@, to_port@) {
                Ok(()) => r is Ok,
                Err(e) => r matches Err(x) && as_command_error(e, x),
            },
    {
        let ghost v = ports_view(self.entries@);
        let a = match find_ports_exec(&self.entries, from) {
            Some(a) => a,
            None => {
                return Err(crate::runtime::GraphCommandError::UnknownModule(crate::text::string_of(&crate::text::chars_of(from))));
            },
        };
        if !has_name(&self.entries[a].1.outputs, from_port) {
            return Err(crate::runtime::GraphCommandError::InvalidPort(
                missing_port_text(from, "output", from_port, &self.entries[a].1.outputs)));
        }
        let b = match find_ports_exec(&self.entries, to) {
            Some(b) => b,
            None => {
                return Err(crate::runtime::GraphCommandError::UnknownModule(crate::text::string_of(&crate::text::chars_of(to))));
            },
        };
        if !has_name(&self.entries[b].1.inputs, to_port) {
            return Err(crate::runtime::GraphCommandError::InvalidPort(
                missing_port_text(to, "input", to_port, &self.entries[b].1.inputs)));
        }
        Ok(())
    }
}

/// Whether a connection can stay when module `id` is replaced by one with
/// these ports: its end at `id` names a port the replacement has.
pub open spec fn compatible(
    c: (Seq<char>, Seq<char>, Seq<char>, Seq<char>),
    id: Seq<char>,
    inputs: Seq<Seq<char>>,
    outputs: Seq<Seq<char>>,
) -> bool {
    (c.0 != id || outputs.contains(c.1)) && (c.2 != id || inputs.contains(c.3))
}

pub open spec fn compatible_with(id: Seq<char>, inputs: Seq<Seq<char>>, outputs: Seq<Seq<char>>)
    -> spec_fn((Seq<char>, Seq<char>, Seq<char>, Seq<char>)) -> bool {
    |c: (Seq<char>, Seq<char>, Seq<char>, Seq<char>)| compatible(c, id, inputs, outputs)
}

/// The graph commands a module swap needs: every connection touching the
/// module is removed, and the compatible ones are restored after the
/// replacement is queued.
pub struct SwapPlan {
    pub disconnect: Vec<RuntimeConnectionInfo>,
    pub reconnect: Vec<RuntimeConnectionInfo>,
}

impl RuntimeState {
    /// Plans a swap of module `id` for one with `ports`. Fails with
    /// `UnknownModule` when the module is not in the graph. Without
    /// `preserve`, nothing is restored.
    pub fn plan_swap(&self, id: &String, ports: &ModulePorts, preserve: bool) -> (r: Result<SwapPlan, crate::runtime::GraphCommandError>)
        ensures
            r is Err <==> find_info(self.view().modules, id@, 0) is None,
            r matches Err(e) ==> e matches crate::runtime::GraphCommandError::UnknownModule(m) && m@ == id@,
            r matches Ok(p) ==> conns_view(p.disconnect@) == self.view().connections.filter(touching(id@)),
            r matches Ok(p) ==> preserve ==> conns_view(p.reconnect@)
                == self.view().connections.filter(touching(id@)).filter(
                    compatible_with(id@, crate::topology::names(ports.inputs@), crate::topology::names(ports.outputs@))),
            r matches Ok(p) ==> !preserve ==> p.reconnect@.len() == 0,
    {
        if !self.has_module(id) {
            return Err(crate::runtime::GraphCommandError::UnknownModule(copy_string(id)));
        }
        let related = related_connections(&self.connections, id);
        let ghost rv = conns_view(related@);
        let ghost q = compatible_with(id@, crate::topology::names(ports.inputs@), crate::topology::names(ports.outputs@));
        let mut reconnect: Vec<RuntimeConnectionInfo> = Vec::new();
        if preserve {
            let mut i: usize = 0;
            while i < related.len()
                invariant
                    i <= related@.len(),
                    rv == conns_view(related@),
                    q == compatible_with(id@, crate::topology::names(ports.inputs@), crate::topology::names(ports.outputs@)),
                    conns_view(reconnect@) == rv.take(i as int).filter(q),
                decreases related.len() - i,
            {
                proof {
                    lemma_filter_step(rv, q, i as int);
                }
                let c = &related[i];
                let output_ok = !str_equal(c.from.as_str(), id.as_str()) || has_name(&ports.outputs, c.from_port.as_str());
                let input_ok = !str_equal(c.to.as_str(), id.as_str()) || has_name(&ports.inputs, c.to_port.as_str());
                if output_ok && input_ok {
                    let ghost before = reconnect@;
                    reconnect.push(conn_copy(c));
                    proof {
                        assert(conns_view(reconnect@) =~= conns_view(before).push(rv[i as int]));
                    }
                }
                i = i + 1;
            }
            proof {
                assert(rv.take(rv.len() as int) =~= rv);
            }
        }
        Ok(SwapPlan { disconnect: related, reconnect })
    }

    /// Records a module added at runtime (or replaced in place): in the
    /// module list and in the retained document.
    pub fn record_add(&mut self, id: &String, module_type: &String, config: &Json)
        ensures
            final(self).view().modules == upsert_info(old(self).view().modules, info_of(id@, module_type@, config.view())),
            final(self).view().connections == old(self).view().connections,
            final(self).view().document == doc_modules_edit(old(self).view().document, upsert_edit(id@, module_type@, config.view())),
            final(self).sample_rate == old(self).sample_rate,
            final(self).running == old(self).running,
            old(self).wf() ==> final(self).wf(),
    {
        self.insert_module_info(id, module_type, config);
        self.document_upsert_module(id, module_type, config);
    }

    /// Records a swap of module `id`: the new type and config, the
    /// connections touching it replaced by `restored`, and the document.
    pub fn record_swap(&mut self, id: &String, module_type: &String, config: &Json, restored: &Vec<RuntimeConnectionInfo>)
        ensures
            final(self).view().modules == upsert_info(old(self).view().modules, info_of(id@, module_type@, config.view())),
            final(self).view().connections == old(self).view().connections.filter(not_touching(id@)) + conns_view(restored@),
            final(self).view().document == doc_modules_edit(old(self).view().document, upsert_edit(id@, module_type@, config.view())),
            final(self).sample_rate == old(self).sample_rate,
            final(self).running == old(self).running,
            old(self).wf() ==> final(self).wf(),
    {
        self.insert_module_info(id, module_type, config);
        self.remove_connections_of(id);
        let ghost before = self.view().connections;
        let mut i: usize = 0;
        while i < restored.len()
            invariant
                i <= restored@.len(),
                self.view().connections == before + conns_view(restored@).take(i as int),
                self.view().modules == upsert_info(old(self).view().modules, info_of(id@, module_type@, config.view())),
                self.document == old(self).document,
                self.sample_rate == old(self).sample_rate,
                self.running == old(self).running,
                old(self).wf() ==> self.wf(),
            decreases restored.len() - i,
        {
            self.add_connection(&restored[i]);
            i = i + 1;
            proof {
                assert(conns_view(restored@).take(i as int) =~= conns_view(restored@).take(i - 1).push(conn_view(restored@[i - 1])));
                assert(self.view().connections =~= before + conns_view(restored@).take(i as int));
            }
        }
        proof {
            assert(conns_view(restored@).take(restored@.len() as int) =~= conns_view(restored@));
        }
        self.document_upsert_module(id, module_type, config);
    }

    /// Records the removal of module `id`: it leaves the module list, every
    /// connection touching it goes, and it leaves the retained document.
    pub fn record_remove(&mut self, id: &String)
        ensures
            final(self).view().modules == remove_info(old(self).view().modules, id@),
            final(self).view().connections == old(self).view().connections.filter(not_touching(id@)),
            final(self).view().document == doc_modules_edit(old(self).view().document, remove_edit(id@)),
            final(self).sample_rate == old(self).sample_rate,
            final(self).running == old(self).running,
            old(self).wf() ==> final(self).wf(),
            forall|i: int| 0 <= i < final(self).view().modules.len() ==> final(self).view().modules[i].0 != id@,
            forall|i: int| 0 <= i < final(self).view().connections.len() ==> !touches(final(self).view().connections[i], id@),
    {
        self.remove_module_info(id);
        self.remove_connections_of(id);
        self.document_remove_module(id);
        proof {
            lemma_filter_sub(old(self).view().modules, other_id(id@));
            lemma_filter_sub(old(self).view().connections, not_touching(id@));
        }
    }
}

// ---------------------------------------------------------------------------
// Laws

/// Disconnecting a connection that was just made, when it was not there
/// before, gives back the connection list as it was.
pub proof fn lemma_disconnect_undoes_connect(
    conns: Seq<(Seq<char>, Seq<char>, Seq<char>, Seq<char>)>,
    c: (Seq<char>, Seq<char>, Seq<char>, Seq<char>),
)
    requires
        !conns.contains(c),
    ensures
        conns.push(c).filter(other_conn(c)) == conns,
    decreases conns.len(),
{
    reveal_with_fuel(Seq::filter, 1);
    assert(conns.push(c).drop_last() =~= conns);
    lemma_filter_keeps_all(conns, c);
}

proof fn lemma_filter_keeps_all(
    conns: Seq<(Seq<char>, Seq<char>, Seq<char>, Seq<char>)>,
    c: (Seq<char>, Seq<char>, Seq<char>, Seq<char>),
)
    requires
        !conns.contains(c),
    ensures
        conns.filter(other_conn(c)) == conns,
    decreases conns.len(),
{
    reveal_with_fuel(Seq::filter, 1);
    if conns.len() > 0 {
        let d = conns.drop_last();
        assert(!d.contains(c)) by {
            if d.contains(c) {
                let k = choose|k: int| 0 <= k < d.len() && d[k] == c;
                assert(conns[k] == c);
            }
        }
        lemma_filter_keeps_all(d, c);
        assert(conns.last() != c) by {
            assert(conns[conns.len() - 1] == conns.last());
        }
        assert(d.push(conns.last()) =~= conns);
    }
}

/// After a swap planned with connections preserved and recorded with the
/// plan's restored connections, every connection touching the module uses
/// ports the new module has, and every other connection is untouched.
pub proof fn lemma_swap_keeps_ports_valid(
    conns: Seq<(Seq<char>, Seq<char>, Seq<char>, Seq<char>)>,
    id: Seq<char>,
    inputs: Seq<Seq<char>>,
    outputs: Seq<Seq<char>>,
)
    ensures
        ({
            let after = conns.filter(not_touching(id)) + conns.filter(touching(id)).filter(compatible_with(id, inputs, outputs));
            &&& forall|i: int| 0 <= i < after.len() && touches(#[trigger] after[i], id) ==> compatible(after[i], id, inputs, outputs)
            &&& forall|x: (Seq<char>, Seq<char>, Seq<char>, Seq<char>)| conns.contains(x) && !touches(x, id) ==> after.contains(x)
        }),
{
    let kept = conns.filter(not_touching(id));
    let restored = conns.filter(touching(id)).filter(compatible_with(id, inputs, outputs));
    let after = kept + restored;
    lemma_filter_sub(conns, not_touching(id));
    lemma_filter_sub(conns.filter(touching(id)), compatible_with(id, inputs, outputs));
    assert forall|i: int| 0 <= i < after.len() && touches(#[trigger] after[i], id) implies compatible(after[i], id, inputs, outputs) by {
        if i < kept.len() {
            assert(after[i] == kept[i]);
            assert(not_touching(id)(kept[i]));
        } else {
            assert(after[i] == restored[i - kept.len()]);
            assert(compatible_with(id, inputs, outputs)(restored[i - kept.len()]));
        }
    }
    assert forall|x: (Seq<char>, Seq<char>, Seq<char>, Seq<char>)| conns.contains(x) && !touches(x, id) implies after.contains(x) by {
        let k = choose|k: int| 0 <= k < conns.len() && conns[k] == x;
        conns.lemma_filter_contains(not_touching(id), k);
        let j = choose|j: int| 0 <= j < kept.len() && kept[j] == x;
        assert(after[j] == x);
    }
}

} // verus!
