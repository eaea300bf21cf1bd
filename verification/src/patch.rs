//! Checking a modular patch before it is built: connections name known
//! modules and ports, a DAC exists, and the signal graph has no feedback
//! loop; plus the names of scale modes and oscillator shapes.

use vstd::prelude::*;
use crate::schedule::has_cycle;
use crate::text::{cat2, chars_eq, chars_of, push_chars, push_str, string_of};
use crate::topology::{RoutingConnection, edge_adjacency, names};
use crate::schedule::vec_views;

verus! {

/// A module declared in a patch.
pub struct PatchModule {
    pub id: String,
    pub module_type: String,
    /// Oscillator shape, for oscillator modules.
    pub oscillator_type: Option<String>,
}

/// A connection declared in a patch; port names are required.
pub struct PatchConnection {
    pub from: String,
    pub from_port: Option<String>,
    pub to: String,
    pub to_port: Option<String>,
}

/// A patch: modules and the connections between them.
pub struct Patch {
    pub modules: Vec<PatchModule>,
    pub connections: Vec<PatchConnection>,
}

/// Musical modes a melody module can use.
#[derive(Clone, Copy, Debug, PartialEq, Eq, Structural)]
pub enum Mode {
    Ionian,
    Dorian,
    Phrygian,
    Lydian,
    Mixolydian,
    Aeolian,
    Locrian,
}

/// Oscillator wave shapes.
#[derive(Clone, Copy, Debug, PartialEq, Eq, Structural)]
pub enum OscillatorType {
    Sine,
    Square,
    Sawtooth,
    Triangle,
}

/// Builds modular patches at a sample rate, checking them first.
pub struct ModularPatchBuilder {
    sample_rate: u32,
}

pub open spec fn module_ids(p: Patch) -> Seq<Seq<char>> {
    Seq::new(p.modules@.len(), |i: int| p.modules@[i].id@)
}

pub open spec fn is_id(ids: Seq<Seq<char>>, name: Seq<char>) -> bool {
    exists|i: int| 0 <= i < ids.len() && ids[i] == name
}

/// The error of the first malformed connection among those from `k` on.
pub open spec fn connection_error(ids: Seq<Seq<char>>, conns: Seq<PatchConnection>, k: int) -> Option<Seq<char>>
    decreases conns.len() - k,
{
    if k < 0 || k >= conns.len() {
        None
    } else {
        let c = conns[k];
        if !is_id(ids, c.from@) {
            Some("Unknown source module: "@ + c.from@)
        } else if !is_id(ids, c.to@) {
            Some("Unknown destination module: "@ + c.to@)
        } else if c.from_port is None {
            Some("Missing from_port in connection from "@ + c.from@)
        } else if c.to_port is None {
            Some("Missing to_port in connection to "@ + c.to@)
        } else {
            connection_error(ids, conns, k + 1)
        }
    }
}

/// The edges that can form a feedback loop, as `(from, to)` names: every
/// connection not into the DAC and not out of it (the DAC has no incoming
/// edges, so no loop runs through it).
pub open spec fn signal_edges(conns: Seq<PatchConnection>) -> Seq<(Seq<char>, Seq<char>)>
    decreases conns.len(),
{
    if conns.len() == 0 {
        Seq::empty()
    } else {
        let c = conns.last();
        let rest = signal_edges(conns.drop_last());
        if c.to@ != "dac"@ && c.from@ != "dac"@ { rest.push((c.from@, c.to@)) } else { rest }
    }
}

pub open spec fn edge_ends(edges: Seq<RoutingConnection>) -> Seq<(Seq<char>, Seq<char>)> {
    Seq::new(edges.len(), |i: int| (edges[i].from_module@, edges[i].to_module@))
}

/// Adjacency over positions in `ids` from `(from, to)` name pairs, in order.
pub open spec fn pair_adjacency(ids: Seq<Seq<char>>, pairs: Seq<(Seq<char>, Seq<char>)>) -> Seq<Seq<usize>>
    decreases pairs.len(),
{
    if pairs.len() == 0 {
        Seq::new(ids.len(), |i: int| Seq::<usize>::empty())
    } else {
        let prev = pair_adjacency(ids, pairs.drop_last());
        match (crate::topology::lookup(ids, pairs.last().0), crate::topology::lookup(ids, pairs.last().1)) {
            (Some(f), Some(t)) => prev.update(f, prev[f].push(t as usize)),
            _ => prev,
        }
    }
}

proof fn lemma_pair_adjacency(ids: Seq<Seq<char>>, edges: Seq<RoutingConnection>)
    ensures
        edge_adjacency(ids, edges) == pair_adjacency(ids, edge_ends(edges)),
    decreases edges.len(),
{
    if edges.len() > 0 {
        lemma_pair_adjacency(ids, edges.drop_last());
        assert(edge_ends(edges.drop_last()) =~= edge_ends(edges).drop_last());
    } else {
        assert(edge_ends(edges) =~= Seq::<(Seq<char>, Seq<char>)>::empty());
    }
}

/// Whether some module has type "dac".
pub open spec fn has_dac(p: Patch) -> bool {
    exists|i: int| 0 <= i < p.modules@.len() && p.modules@[i].module_type@ == "dac"@
}

/// Why a patch is rejected, if it is, apart from feedback loops: the first
/// bad connection, or a missing DAC.
pub open spec fn patch_error(p: Patch) -> Option<Seq<char>> {
    match connection_error(module_ids(p), p.connections@, 0) {
        Some(m) => Some(m),
        None => if !has_dac(p) { Some("No DAC module found"@) } else { None },
    }
}

pub open spec fn cycle_msg(id: Seq<char>) -> Seq<char> {
    "Cycle detected in signal graph involving module '"@ + id + "'"@
}

/// The signal graph of a patch over its module positions.
pub open spec fn signal_graph(p: Patch) -> Seq<Seq<usize>> {
    pair_adjacency(module_ids(p), signal_edges(p.connections@))
}

proof fn lemma_signal_edges_contain(conns: Seq<PatchConnection>, k: int)
    requires
        0 <= k < conns.len(),
        conns[k].to@ != "dac"@,
        conns[k].from@ != "dac"@,
    ensures
        signal_edges(conns).contains((conns[k].from@, conns[k].to@)),
    decreases conns.len(),
{
    let last = conns.len() - 1;
    let rest = signal_edges(conns.drop_last());
    if k == last {
        assert(signal_edges(conns) == rest.push((conns[k].from@, conns[k].to@)));
        assert(signal_edges(conns)[rest.len() as int] == (conns[k].from@, conns[k].to@));
    } else {
        assert(conns.drop_last()[k] == conns[k]);
        lemma_signal_edges_contain(conns.drop_last(), k);
        let i = choose|i: int| 0 <= i < rest.len() && rest[i] == (conns[k].from@, conns[k].to@);
        let c = conns.last();
        if c.to@ != "dac"@ && c.from@ != "dac"@ {
            assert(signal_edges(conns)[i] == rest[i]);
        }
    }
}

proof fn lemma_pair_adjacency_len(ids: Seq<Seq<char>>, pairs: Seq<(Seq<char>, Seq<char>)>)
    ensures
        pair_adjacency(ids, pairs).len() == ids.len(),
    decreases pairs.len(),
{
    if pairs.len() > 0 {
        lemma_pair_adjacency_len(ids, pairs.drop_last());
        crate::topology::lemma_find_from(ids, pairs.last().0, 0);
    }
}

/// Every pair of known names is an edge of the adjacency.
proof fn lemma_pair_adjacency_contains(ids: Seq<Seq<char>>, pairs: Seq<(Seq<char>, Seq<char>)>, m: int, f: int, t: int)
    requires
        0 <= m < pairs.len(),
        crate::topology::lookup(ids, pairs[m].0) == Some(f),
        crate::topology::lookup(ids, pairs[m].1) == Some(t),
    ensures
        pair_adjacency(ids, pairs)[f].contains(t as usize),
    decreases pairs.len(),
{
    crate::topology::lemma_find_from(ids, pairs[m].0, 0);
    crate::topology::lemma_find_from(ids, pairs[m].1, 0);
    let last = pairs.len() - 1;
    let prev = pair_adjacency(ids, pairs.drop_last());
    lemma_pair_adjacency_len(ids, pairs.drop_last());
    crate::topology::lemma_find_from(ids, pairs.last().0, 0);
    if m == last {
        let row = prev[f].push(t as usize);
        assert(pair_adjacency(ids, pairs) == prev.update(f, row));
        assert(row[prev[f].len() as int] == t as usize);
    } else {
        assert(pairs.drop_last()[m] == pairs[m]);
        lemma_pair_adjacency_contains(ids, pairs.drop_last(), m, f, t);
        let j = choose|j: int| 0 <= j < prev[f].len() && prev[f][j] == t as usize;
        match (crate::topology::lookup(ids, pairs.last().0), crate::topology::lookup(ids, pairs.last().1)) {
            (Some(f2), Some(t2)) => {
                let next = prev.update(f2, prev[f2].push(t2 as usize));
                if f2 == f {
                    assert(next[f][j] == t as usize);
                } else {
                    assert(next[f] == prev[f]);
                }
            },
            _ => {},
        }
    }
}

/// Every connection that neither enters nor leaves the DAC is an edge of
/// the signal graph the feedback check searches.
pub proof fn lemma_connections_are_signal_edges(p: Patch, k: int)
    requires
        0 <= k < p.connections@.len(),
        p.connections@[k].to@ != "dac"@,
        p.connections@[k].from@ != "dac"@,
        is_id(module_ids(p), p.connections@[k].from@),
        is_id(module_ids(p), p.connections@[k].to@),
    ensures
        ({
            let c = p.connections@[k];
            let f = crate::topology::lookup(module_ids(p), c.from@);
            let t = crate::topology::lookup(module_ids(p), c.to@);
            &&& f is Some && t is Some
            &&& signal_graph(p)[f->Some_0].contains(t->Some_0 as usize)
        }),
{
    let ids = module_ids(p);
    let c = p.connections@[k];
    crate::topology::lemma_find_from(ids, c.from@, 0);
    crate::topology::lemma_find_from(ids, c.to@, 0);
    let f = crate::topology::lookup(ids, c.from@)->Some_0;
    let t = crate::topology::lookup(ids, c.to@)->Some_0;
    let edges = signal_edges(p.connections@);
    lemma_signal_edges_contain(p.connections@, k);
    let m = choose|m: int| 0 <= m < edges.len() && edges[m] == (c.from@, c.to@);
    lemma_pair_adjacency_contains(ids, edges, m, f, t);
}

/// A module wired to itself, outside the DAC, closes a feedback loop: the
/// signal graph has a cycle, so the patch is rejected.
pub proof fn lemma_self_feedback_is_a_cycle(p: Patch, k: int)
    requires
        0 <= k < p.connections@.len(),
        p.connections@[k].from@ == p.connections@[k].to@,
        p.connections@[k].from@ != "dac"@,
        is_id(module_ids(p), p.connections@[k].from@),
    ensures
        has_cycle(signal_graph(p)),
{
    let ids = module_ids(p);
    let c = p.connections@[k];
    lemma_connections_are_signal_edges(p, k);
    crate::topology::lemma_find_from(ids, c.from@, 0);
    let f = crate::topology::lookup(ids, c.from@)->Some_0;
    let g = signal_graph(p);
    lemma_pair_adjacency_len(ids, signal_edges(p.connections@));
    assert(0 <= f < ids.len());
    assert(ids.len() == p.modules@.len());
    assert(p.modules@.len() <= usize::MAX) by {
        assert(p.modules.len() <= usize::MAX);
    }
    assert((f as usize) as int == f);
    let path = seq![f as usize, f as usize];
    assert(crate::schedule::is_path(g, path)) by {
        assert forall|i: int| 0 <= i < path.len() - 1 implies g[path[i] as int].contains(#[trigger] path[i + 1]) by {
            assert(i == 0);
        }
    }
    assert(path[0] == path.last());
}

impl ModularPatchBuilder {
    /// A builder for patches at `sample_rate`.
    pub fn new(sample_rate: u32) -> (r: Self)
        ensures
            r.rate() == sample_rate,
    {
        ModularPatchBuilder { sample_rate }
    }

    pub closed spec fn rate(&self) -> u32 {
        self.sample_rate
    }

    /// Checks a patch: every connection names known modules and both ports,
    /// a DAC exists, and the signal graph has no feedback loop.
    ///
    /// A feedback loop is reported naming the module whose search found it.
    pub fn validate_patch(&self, patch: &Patch) -> (r: Result<(), String>)
        requires
            patch.modules@.len() < usize::MAX,
        ensures
            match patch_error(*patch) {
                Some(m) => r matches Err(e) && e@ == m,
                None => {
                    &&& r is Err <==> has_cycle(signal_graph(*patch))
                    &&& r matches Err(e) ==> exists|i: int| 0 <= i < patch.modules@.len()
                        && e@ == cycle_msg(#[trigger] patch.modules@[i].id@)
                },
            },
    {
        let mut k: usize = 0;
        while k < patch.connections.len()
            invariant
                k <= patch.connections@.len(),
                connection_error(module_ids(*patch), patch.connections@, 0)
                    == connection_error(module_ids(*patch), patch.connections@, k as int),
            decreases patch.connections.len() - k,
        {
            let c = &patch.connections[k];
            if !is_module(patch, &c.from) {
                return Err(string_of(&cat2("Unknown source module: ", &chars_of(c.from.as_str()))));
            }
            if !is_module(patch, &c.to) {
                return Err(string_of(&cat2("Unknown destination module: ", &chars_of(c.to.as_str()))));
            }
            if c.from_port.is_none() {
                return Err(string_of(&cat2("Missing from_port in connection from ", &chars_of(c.from.as_str()))));
            }
            if c.to_port.is_none() {
                return Err(string_of(&cat2("Missing to_port in connection to ", &chars_of(c.to.as_str()))));
            }
            k = k + 1;
        }
        let mut found = false;
        let mut i: usize = 0;
        while i < patch.modules.len()
            invariant
                i <= patch.modules@.len(),
                found == exists|j: int| 0 <= j < i && patch.modules@[j].module_type@ == "dac"@,
            decreases patch.modules.len() - i,
        {
            if crate::text::str_equal(patch.modules[i].module_type.as_str(), "dac") {
                found = true;
            }
            i = i + 1;
        }
        if !found {
            return Err(string_of(&chars_of("No DAC module found")));
        }
        self.validate_acyclic(patch)
    }

    /// Rejects a patch whose signal graph (connections not touching the
    /// DAC) has a feedback loop, naming the module whose search found it.
    fn validate_acyclic(&self, patch: &Patch) -> (r: Result<(), String>)
        requires
            patch.modules@.len() < usize::MAX,
        ensures
            r is Err <==> has_cycle(signal_graph(*patch)),
            r matches Err(e) ==> exists|i: int| 0 <= i < patch.modules@.len()
                && e@ == cycle_msg(#[trigger] patch.modules@[i].id@),
    {
        let mut ids: Vec<String> = Vec::new();
        let mut i: usize = 0;
        while i < patch.modules.len()
            invariant
                i <= patch.modules@.len(),
                names(ids@) == module_ids(*patch).take(i as int),
                ids@.len() == i,
            decreases patch.modules.len() - i,
        {
            ids.push(string_of(&chars_of(patch.modules[i].id.as_str())));
            i = i + 1;
            proof {
                assert(names(ids@) =~= module_ids(*patch).take(i as int));
            }
        }
        proof {
            assert(module_ids(*patch).take(patch.modules@.len() as int) =~= module_ids(*patch));
        }
        let mut edges: Vec<RoutingConnection> = Vec::new();
        let mut k: usize = 0;
        proof {
            assert(patch.connections@.take(0) =~= Seq::<PatchConnection>::empty());
        }
        while k < patch.connections.len()
            invariant
                k <= patch.connections@.len(),
                edge_ends(edges@) == signal_edges(patch.connections@.take(k as int)),
            decreases patch.connections.len() - k,
        {
            let c = &patch.connections[k];
            proof {
                assert(patch.connections@.take(k + 1).drop_last() =~= patch.connections@.take(k as int));
            }
            if !crate::text::str_equal(c.to.as_str(), "dac") && !crate::text::str_equal(c.from.as_str(), "dac") {
                let ghost before = edges@;
                edges.push(RoutingConnection {
                    from_module: string_of(&chars_of(c.from.as_str())),
                    from_port: string_of(&Vec::new()),
                    to_module: string_of(&chars_of(c.to.as_str())),
                    to_port: string_of(&Vec::new()),
                });
                proof {
                    assert(edge_ends(edges@) =~= edge_ends(before).push((c.from@, c.to@)));
                }
            }
            k = k + 1;
        }
        proof {
            assert(patch.connections@.take(patch.connections@.len() as int) =~= patch.connections@);
            lemma_pair_adjacency(names(ids@), edges@);
        }
        let adj = crate::topology::build_edge_rows(&ids, &edges);
        let (_order, cyclic, root) = crate::schedule::dfs_order(&adj);
        if cyclic {
            let mut msg = chars_of("Cycle detected in signal graph involving module '");
            push_chars(&mut msg, &chars_of(patch.modules[root].id.as_str()));
            push_str(&mut msg, "'");
            return Err(string_of(&msg));
        }
        Ok(())
    }
}

fn is_module(patch: &Patch, name: &String) -> (r: bool)
    ensures
        r == is_id(module_ids(*patch), name@),
{
    let mut i: usize = 0;
    while i < patch.modules.len()
        invariant
            i <= patch.modules@.len(),
            forall|j: int| 0 <= j < i ==> module_ids(*patch)[j] != name@,
        decreases patch.modules.len() - i,
    {
        if crate::text::str_equal(patch.modules[i].id.as_str(), name.as_str()) {
            proof {
                assert(module_ids(*patch)[i as int] == name@);
            }
            return true;
        }
        i = i + 1;
    }
    false
}

/// ASCII-lowercased text.
pub open spec fn lowered(s: Seq<char>) -> Seq<char> {
    Seq::new(s.len(), |i: int| crate::text::lower(s[i]))
}

/// The mode a (case-insensitive) name stands for.
pub open spec fn mode_of(name: Seq<char>) -> Option<Mode> {
    let l = lowered(name);
    if l == "ionian"@ || l == "major"@ { Some(Mode::Ionian) }
    else if l == "dorian"@ { Some(Mode::Dorian) }
    else if l == "phrygian"@ { Some(Mode::Phrygian) }
    else if l == "lydian"@ { Some(Mode::Lydian) }
    else if l == "mixolydian"@ { Some(Mode::Mixolydian) }
    else if l == "aeolian"@ || l == "minor"@ { Some(Mode::Aeolian) }
    else if l == "locrian"@ { Some(Mode::Locrian) }
    else { None }
}

/// The oscillator shape a (case-insensitive) name stands for.
pub open spec fn oscillator_of(name: Seq<char>) -> Option<OscillatorType> {
    let l = lowered(name);
    if l == "sine"@ { Some(OscillatorType::Sine) }
    else if l == "square"@ { Some(OscillatorType::Square) }
    else if l == "sawtooth"@ || l == "saw"@ { Some(OscillatorType::Sawtooth) }
    else if l == "triangle"@ || l == "tri"@ { Some(OscillatorType::Triangle) }
    else { None }
}

fn lowercase(s: &str) -> (r: Vec<char>)
    ensures
        r@ == lowered(s@),
{
    let n = s.unicode_len();
    let mut r: Vec<char> = Vec::new();
    let mut i: usize = 0;
    while i < n
        invariant
            n == s@.len(),
            i <= n,
            r@ == lowered(s@.take(i as int)),
        decreases n - i,
    {
        r.push(crate::text::lower_char(s.get_char(i)));
        i = i + 1;
        proof {
            assert(r@ =~= lowered(s@.take(i as int)));
        }
    }
    proof {
        assert(s@.take(n as int) =~= s@);
    }
    r
}

impl ModularPatchBuilder {
    /// Parses a mode name, ignoring case ("major" and "minor" are Ionian and
    /// Aeolian).
    pub fn parse_mode(&self, mode_str: &str) -> (r: Result<Mode, String>)
        ensures
            match mode_of(mode_str@) {
                Some(m) => r == Ok::<Mode, String>(m),
                None => r matches Err(e) && e@ == "Unknown mode: "@ + mode_str@,
            },
    {
        let l = lowercase(mode_str);
        if chars_eq(&l, "ionian") || chars_eq(&l, "major") {
            Ok(Mode::Ionian)
        } else if chars_eq(&l, "dorian") {
            Ok(Mode::Dorian)
        } else if chars_eq(&l, "phrygian") {
            Ok(Mode::Phrygian)
        } else if chars_eq(&l, "lydian") {
            Ok(Mode::Lydian)
        } else if chars_eq(&l, "mixolydian") {
            Ok(Mode::Mixolydian)
        } else if chars_eq(&l, "aeolian") || chars_eq(&l, "minor") {
            Ok(Mode::Aeolian)
        } else if chars_eq(&l, "locrian") {
            Ok(Mode::Locrian)
        } else {
            Err(string_of(&cat2("Unknown mode: ", &chars_of(mode_str))))
        }
    }

    /// Parses a module's oscillator shape, ignoring case; a module that names
    /// none is a sine.
    pub fn parse_oscillator_type(&self, config: &PatchModule) -> (r: Result<OscillatorType, String>)
        ensures
            ({
                let name = match config.oscillator_type { Some(s) => s@, None => "sine"@ };
                match oscillator_of(name) {
                    Some(o) => r == Ok::<OscillatorType, String>(o),
                    None => r matches Err(e) && e@ == "Unknown oscillator type: "@ + name,
                }
            }),
    {
        let name: &str = match &config.oscillator_type {
            Some(s) => s.as_str(),
            None => "sine",
        };
        let l = lowercase(name);
        if chars_eq(&l, "sine") {
            Ok(OscillatorType::Sine)
        } else if chars_eq(&l, "square") {
            Ok(OscillatorType::Square)
        } else if chars_eq(&l, "sawtooth") || chars_eq(&l, "saw") {
            Ok(OscillatorType::Sawtooth)
        } else if chars_eq(&l, "triangle") || chars_eq(&l, "tri") {
            Ok(OscillatorType::Triangle)
        } else {
            Err(string_of(&cat2("Unknown oscillator type: ", &chars_of(name))))
        }
    }
}

} // verus!

verus! {

// ---------------------------------------------------------------------------
// Routing

/// A built module's port names, or `None` for the DAC, which takes any
/// connection.
pub type BuiltPorts = (String, Option<crate::state::ModulePorts>);

pub open spec fn built_view(v: Seq<BuiltPorts>) -> Seq<(Seq<char>, Option<(Seq<Seq<char>>, Seq<Seq<char>>)>)> {
    Seq::new(v.len(), |i: int| (v[i].0@, match &v[i].1 {
        Some(p) => Some((names(p.inputs@), names(p.outputs@))),
        None => None,
    }))
}

/// The ports of the first built module named `id`: `None` when there is
/// none, `Some(None)` for the DAC.
pub open spec fn built_ports(v: Seq<(Seq<char>, Option<(Seq<Seq<char>>, Seq<Seq<char>>)>)>, id: Seq<char>, k: int)
    -> Option<Option<(Seq<Seq<char>>, Seq<Seq<char>>)>>
    decreases v.len() - k,
{
    if k < 0 || k >= v.len() {
        None
    } else if v[k].0 == id {
        Some(v[k].1)
    } else {
        built_ports(v, id, k + 1)
    }
}

/// The error for a port a built module lacks.
pub open spec fn missing_built_port_msg(direction: Seq<char>, port: Seq<char>, available: Seq<Seq<char>>) -> Seq<char> {
    "Module does not have "@ + direction + " port '"@ + port + "'. Available: "@ + crate::state::debug_names(available)
}

/// The routing of the first `k` connections, or the first problem: a
/// missing port name, or a port the built source or destination lacks (a
/// connection into the DAC is not checked).
pub open spec fn routing_spec(
    conns: Seq<PatchConnection>,
    built: Seq<(Seq<char>, Option<(Seq<Seq<char>>, Seq<Seq<char>>)>)>,
    k: int,
) -> Result<Seq<(Seq<char>, Seq<char>, Seq<char>, Seq<char>)>, Seq<char>>
    decreases k,
{
    if k <= 0 || k > conns.len() {
        Ok(Seq::empty())
    } else {
        match routing_spec(conns, built, k - 1) {
            Err(e) => Err(e),
            Ok(acc) => {
                let c = conns[k - 1];
                match (c.from_port, c.to_port) {
                    (None, _) => Err("Missing from_port"@),
                    (Some(_), None) => Err("Missing to_port"@),
                    (Some(fp), Some(tp)) => match built_ports(built, c.from@, 0) {
                        Some(Some(ports)) if !ports.1.contains(fp@) => Err(missing_built_port_msg("output"@, fp@, ports.1)),
                        _ => match built_ports(built, c.to@, 0) {
                            Some(Some(ports)) if c.to@ != "dac"@ && !ports.0.contains(tp@) =>
                                Err(missing_built_port_msg("input"@, tp@, ports.0)),
                            _ => Ok(acc.push((c.from@, fp@, c.to@, tp@))),
                        },
                    },
                }
            },
        }
    }
}

fn find_built(built: &Vec<BuiltPorts>, id: &String) -> (r: Option<usize>)
    ensures
        match built_ports(built_view(built@), id@, 0) {
            Some(p) => r matches Some(i) && i < built@.len() && built_view(built@)[i as int].1 == p,
            None => r is None,
        },
{
    let ghost bv = built_view(built@);
    let mut i: usize = 0;
    while i < built.len()
        invariant
            i <= built@.len(),
            bv == built_view(built@),
            built_ports(bv, id@, 0) == built_ports(bv, id@, i as int),
        decreases built.len() - i,
    {
        if crate::text::str_equal(built[i].0.as_str(), id.as_str()) {
            return Some(i);
        }
        i = i + 1;
    }
    None
}

fn missing_built_port_text(direction: &str, port: &String, available: &Vec<String>) -> (r: String)
    ensures
        r@ == missing_built_port_msg(direction@, port@, names(available@)),
{
    let mut t = chars_of("Module does not have ");
    push_str(&mut t, direction);
    push_str(&mut t, " port '");
    push_str(&mut t, port.as_str());
    push_str(&mut t, "'. Available: ");
    crate::development::push_debug_names(&mut t, available);
    proof {
        assert(t@ =~= missing_built_port_msg(direction@, port@, names(available@)));
    }
    string_of(&t)
}

impl ModularPatchBuilder {
    /// The routing of a patch's connections among its built modules (see
    /// [`routing_spec`]).
    pub fn build_routing(&self, patch: &Patch, built: &Vec<BuiltPorts>) -> (r: Result<Vec<RoutingConnection>, String>)
        ensures
            match routing_spec(patch.connections@, built_view(built@), patch.connections@.len() as int) {
                Ok(rs) => r matches Ok(v) && crate::graph::edges_view(v@) == rs,
                Err(e) => r matches Err(x) && x@ == e,
            },
    {
        let ghost bv = built_view(built@);
        let mut routing: Vec<RoutingConnection> = Vec::new();
        proof {
            assert(crate::graph::edges_view(routing@) =~= Seq::<(Seq<char>, Seq<char>, Seq<char>, Seq<char>)>::empty());
        }
        let mut k: usize = 0;
        while k < patch.connections.len()
            invariant
                k <= patch.connections@.len(),
                bv == built_view(built@),
                routing_spec(patch.connections@, bv, k as int) == Ok::<_, Seq<char>>(crate::graph::edges_view(routing@)),
            decreases patch.connections.len() - k,
        {
            let c = &patch.connections[k];
            let fp = match &c.from_port {
                Some(p) => p,
                None => {
                    proof {
                        lemma_routing_stays(patch.connections@, bv, k as int + 1, patch.connections@.len() as int);
                    }
                    return Err(string_of(&chars_of("Missing from_port")));
                },
            };
            let tp = match &c.to_port {
                Some(p) => p,
                None => {
                    proof {
                        lemma_routing_stays(patch.connections@, bv, k as int + 1, patch.connections@.len() as int);
                    }
                    return Err(string_of(&chars_of("Missing to_port")));
                },
            };
            match find_built(built, &c.from) {
                Some(i) => match &built[i].1 {
                    Some(ports) => {
                        if !crate::state::has_name(&ports.outputs, fp.as_str()) {
                            proof {
                                lemma_routing_stays(patch.connections@, bv, k as int + 1, patch.connections@.len() as int);
                            }
                            return Err(missing_built_port_text("output", fp, &ports.outputs));
                        }
                    },
                    None => {},
                },
                None => {},
            }
            if !crate::text::str_equal(c.to.as_str(), "dac") {
                match find_built(built, &c.to) {
                    Some(i) => match &built[i].1 {
                        Some(ports) => {
                            if !crate::state::has_name(&ports.inputs, tp.as_str()) {
                                proof {
                                    lemma_routing_stays(patch.connections@, bv, k as int + 1, patch.connections@.len() as int);
                                }
                                return Err(missing_built_port_text("input", tp, &ports.inputs));
                            }
                        },
                        None => {},
                    },
                    None => {},
                }
            }
            let ghost before = routing@;
            routing.push(RoutingConnection {
                from_module: crate::invention::copy_string(&c.from),
                from_port: crate::invention::copy_string(fp),
                to_module: crate::invention::copy_string(&c.to),
                to_port: crate::invention::copy_string(tp),
            });
            proof {
                assert(crate::graph::edges_view(routing@) =~= crate::graph::edges_view(before).push((c.from@, fp@, c.to@, tp@)));
            }
            k = k + 1;
        }
        Ok(routing)
    }
}

proof fn lemma_routing_stays(
    conns: Seq<PatchConnection>,
    built: Seq<(Seq<char>, Option<(Seq<Seq<char>>, Seq<Seq<char>>)>)>,
    k: int,
    n: int,
)
    requires
        0 < k <= n <= conns.len(),
        routing_spec(conns, built, k) is Err,
    ensures
        routing_spec(conns, built, n) == routing_spec(conns, built, k),
    decreases n - k,
{
    if k < n {
        lemma_routing_stays(conns, built, k, n - 1);
    }
}

} // verus!
