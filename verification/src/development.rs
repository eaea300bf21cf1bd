//! Developments: an invention used as a module inside another. Building one
//! checks the definition's exposed inputs, outputs and controls against the
//! sub-modules that were built for it, and routes each exposed port to a
//! sub-module port.

use vstd::prelude::*;
use crate::invention::{Invention, InventionV, copy_string};
use crate::json::{Json, JsonV};
use crate::state::{debug_names, joined_quoted};
use crate::text::{chars_of, push_str, str_equal, string_of};
use crate::topology::names;

verus! {

/// A built sub-module: its id in the definition, its name, and its port
/// names in port order.
pub struct ModuleEntry {
    pub id: String,
    pub name: String,
    pub inputs: Vec<String>,
    pub outputs: Vec<String>,
}

/// [`ModuleEntry`] as plain values.
pub struct EntryV {
    pub id: Seq<char>,
    pub name: Seq<char>,
    pub inputs: Seq<Seq<char>>,
    pub outputs: Seq<Seq<char>>,
}

impl ModuleEntry {
    pub open spec fn view(&self) -> EntryV {
        EntryV { id: self.id@, name: self.name@, inputs: names(self.inputs@), outputs: names(self.outputs@) }
    }
}

pub open spec fn entries_view(v: Seq<ModuleEntry>) -> Seq<EntryV> {
    Seq::new(v.len(), |i: int| v[i].view())
}

/// The sub-module with id `id` (the first one).
pub open spec fn entry_of(ms: Seq<EntryV>, id: Seq<char>, k: int) -> Option<int>
    decreases ms.len() - k,
{
    if k < 0 || k >= ms.len() {
        None
    } else if ms[k].id == id {
        Some(k)
    } else {
        entry_of(ms, id, k + 1)
    }
}

/// The position of `name` in `list` (the first one).
pub open spec fn position(list: Seq<Seq<char>>, name: Seq<char>, k: int) -> Option<int>
    decreases list.len() - k,
{
    if k < 0 || k >= list.len() {
        None
    } else if list[k] == name {
        Some(k)
    } else {
        position(list, name, k + 1)
    }
}

/// The error for a port a module does not have.
pub open spec fn missing_module_port_msg(name: Seq<char>, direction: Seq<char>, port: Seq<char>, available: Seq<Seq<char>>) -> Seq<char> {
    "Module '"@ + name + "' does not have "@ + direction + " port '"@ + port + "'. Available: "@ + debug_names(available)
}

/// The first problem among the first `k` exposed inputs: the target module
/// must exist and have the target port.
pub open spec fn inputs_problem(def: InventionV, ms: Seq<EntryV>, k: int) -> Option<Seq<char>>
    decreases k,
{
    if k <= 0 || k > def.inputs.len() {
        None
    } else {
        match inputs_problem(def, ms, k - 1) {
            Some(e) => Some(e),
            None => {
                let (name, to, to_port) = def.inputs[k - 1];
                match entry_of(ms, to, 0) {
                    None => Some("Unknown input target module: "@ + to),
                    Some(m) => if ms[m].inputs.contains(to_port) {
                        None
                    } else {
                        Some(missing_module_port_msg(ms[m].name, "input"@, to_port, ms[m].inputs))
                    },
                }
            },
        }
    }
}

/// The first problem among the first `k` exposed outputs.
pub open spec fn outputs_problem(def: InventionV, ms: Seq<EntryV>, k: int) -> Option<Seq<char>>
    decreases k,
{
    if k <= 0 || k > def.outputs.len() {
        None
    } else {
        match outputs_problem(def, ms, k - 1) {
            Some(e) => Some(e),
            None => {
                let (name, from, from_port) = def.outputs[k - 1];
                match entry_of(ms, from, 0) {
                    None => Some("Unknown output source module: "@ + from),
                    Some(m) => if ms[m].outputs.contains(from_port) {
                        None
                    } else {
                        Some(missing_module_port_msg(ms[m].name, "output"@, from_port, ms[m].outputs))
                    },
                }
            },
        }
    }
}

/// The control keys of module `id`'s control surface.
pub open spec fn surface_of(surfaces: Seq<(Seq<char>, Seq<Seq<char>>)>, id: Seq<char>, k: int) -> Option<int>
    decreases surfaces.len() - k,
{
    if k < 0 || k >= surfaces.len() {
        None
    } else if surfaces[k].0 == id {
        Some(k)
    } else {
        surface_of(surfaces, id, k + 1)
    }
}

/// The first problem among the first `k` exposed controls: the module must
/// have a control surface with the aliased control.
pub open spec fn controls_problem(def: InventionV, surfaces: Seq<(Seq<char>, Seq<Seq<char>>)>, k: int) -> Option<Seq<char>>
    decreases k,
{
    if k <= 0 || k > def.controls.len() {
        None
    } else {
        match controls_problem(def, surfaces, k - 1) {
            Some(e) => Some(e),
            None => {
                let (key, module, control) = def.controls[k - 1];
                match surface_of(surfaces, module, 0) {
                    None => Some("Unknown control module: "@ + module),
                    Some(s) => if surfaces[s].1.contains(control) {
                        None
                    } else {
                        Some("Unknown control '"@ + control + "' on module '"@ + module + "'"@)
                    },
                }
            },
        }
    }
}

/// The first `k` names without repeats, in order of first appearance.
pub open spec fn unique_names(ns: Seq<Seq<char>>, k: int) -> Seq<Seq<char>>
    decreases k,
{
    if k <= 0 || k > ns.len() {
        Seq::empty()
    } else {
        let u = unique_names(ns, k - 1);
        if u.contains(ns[k - 1]) { u } else { u.push(ns[k - 1]) }
    }
}

/// The routes of each exposed input port after the first `k` inputs: the
/// sub-module index and port index each input of that name feeds.
pub open spec fn input_routes_fold(def: InventionV, ms: Seq<EntryV>, ports: Seq<Seq<char>>, k: int) -> Seq<Seq<(int, int)>>
    decreases k,
{
    if k <= 0 || k > def.inputs.len() {
        Seq::new(ports.len(), |j: int| Seq::<(int, int)>::empty())
    } else {
        let r = input_routes_fold(def, ms, ports, k - 1);
        let (name, to, to_port) = def.inputs[k - 1];
        match (position(ports, name, 0), entry_of(ms, to, 0)) {
            (Some(j), Some(m)) => match position(ms[m].inputs, to_port, 0) {
                Some(p) => r.update(j, r[j].push((m, p))),
                None => r,
            },
            _ => r,
        }
    }
}

/// The route of exposed output `i`: its sub-module index and port index.
pub open spec fn output_route(def: InventionV, ms: Seq<EntryV>, i: int) -> (int, int) {
    let (name, from, from_port) = def.outputs[i];
    match entry_of(ms, from, 0) {
        Some(m) => match position(ms[m].outputs, from_port, 0) {
            Some(p) => (m, p),
            None => (0, 0),
        },
        None => (0, 0),
    }
}

pub open spec fn input_names(def: InventionV) -> Seq<Seq<char>> {
    Seq::new(def.inputs.len(), |i: int| def.inputs[i].0)
}

pub open spec fn output_names(def: InventionV) -> Seq<Seq<char>> {
    Seq::new(def.outputs.len(), |i: int| def.outputs[i].0)
}

/// An exposed sub-module port: the sub-module's index and the port's index.
pub struct PortRoute {
    pub module_index: usize,
    pub port_index: usize,
}

/// An exposed output: its name and the sub-module port it reads.
pub struct OutputRoute {
    pub name: String,
    pub module_index: usize,
    pub port_index: usize,
}

/// An exposed control: its key, and the sub-module control it aliases.
pub struct AliasedControl {
    pub key: String,
    pub module_id: String,
    pub control: String,
}

/// How a development's exposed ports and controls reach its sub-modules.
pub struct DevelopmentRoutes {
    pub input_ports: Vec<String>,
    pub output_ports: Vec<String>,
    /// Per exposed input port, the sub-module ports it feeds.
    pub input_routes: Vec<Vec<PortRoute>>,
    pub outputs: Vec<OutputRoute>,
    pub controls: Vec<AliasedControl>,
}

/// What a development build checks and routes, for a definition whose
/// exposed outputs have distinct names.
pub open spec fn routes_ok(def: InventionV, ms: Seq<EntryV>, surfaces: Seq<(Seq<char>, Seq<Seq<char>>)>, r: DevelopmentRoutes) -> bool {
    let ports = unique_names(input_names(def), def.inputs.len() as int);
    let routes = input_routes_fold(def, ms, ports, def.inputs.len() as int);
    &&& names(r.input_ports@) == ports
    &&& names(r.output_ports@) == unique_names(output_names(def), def.outputs.len() as int)
    &&& r.input_routes@.len() == routes.len()
    &&& forall|j: int| 0 <= j < routes.len() ==>
        Seq::new((#[trigger] r.input_routes@[j])@.len(), |x: int| (r.input_routes@[j]@[x].module_index as int, r.input_routes@[j]@[x].port_index as int)) == routes[j]
    &&& r.outputs@.len() == def.outputs.len()
    &&& forall|i: int| 0 <= i < def.outputs.len() ==> {
        &&& (#[trigger] r.outputs@[i]).name@ == def.outputs[i].0
        &&& (r.outputs@[i].module_index as int, r.outputs@[i].port_index as int) == output_route(def, ms, i)
    }
    &&& r.controls@.len() == def.controls.len()
    &&& forall|i: int| 0 <= i < def.controls.len() ==>
        ((#[trigger] r.controls@[i]).key@, r.controls@[i].module_id@, r.controls@[i].control@) == def.controls[i]
}

} // verus!

verus! {

fn find_entry(ms: &Vec<ModuleEntry>, id: &String) -> (r: Option<usize>)
    ensures
        r matches Some(i) ==> i < ms@.len() && entry_of(entries_view(ms@), id@, 0) == Some(i as int),
        r is None ==> entry_of(entries_view(ms@), id@, 0) is None,
{
    let ghost v = entries_view(ms@);
    let mut i: usize = 0;
    while i < ms.len()
        invariant
            i <= ms@.len(),
            v == entries_view(ms@),
            entry_of(v, id@, 0) == entry_of(v, id@, i as int),
        decreases ms.len() - i,
    {
        if str_equal(ms[i].id.as_str(), id.as_str()) {
            return Some(i);
        }
        i = i + 1;
    }
    None
}

fn port_position(list: &Vec<String>, name: &String) -> (r: Option<usize>)
    ensures
        r matches Some(i) ==> i < list@.len() && position(names(list@), name@, 0) == Some(i as int),
        r is None ==> position(names(list@), name@, 0) is None,
{
    let ghost v = names(list@);
    let mut i: usize = 0;
    while i < list.len()
        invariant
            i <= list@.len(),
            v == names(list@),
            position(v, name@, 0) == position(v, name@, i as int),
        decreases list.len() - i,
    {
        if str_equal(list[i].as_str(), name.as_str()) {
            return Some(i);
        }
        i = i + 1;
    }
    None
}

proof fn lemma_position(list: Seq<Seq<char>>, name: Seq<char>, k: int)
    requires
        0 <= k,
    ensures
        position(list, name, k) matches Some(i) ==> k <= i < list.len() && list[i] == name,
        position(list, name, k) is None ==> forall|i: int| k <= i < list.len() ==> list[i] != name,
    decreases list.len() - k,
{
    if k < list.len() && list[k] != name {
        lemma_position(list, name, k + 1);
    }
}

proof fn lemma_entry_of(ms: Seq<EntryV>, id: Seq<char>, k: int)
    requires
        0 <= k,
    ensures
        entry_of(ms, id, k) matches Some(i) ==> k <= i < ms.len() && ms[i].id == id,
    decreases ms.len() - k,
{
    if k < ms.len() && ms[k].id != id {
        lemma_entry_of(ms, id, k + 1);
    }
}

fn contains_position(list: &Vec<String>, name: &String) -> (r: bool)
    ensures
        r == names(list@).contains(name@),
{
    proof {
        lemma_position(names(list@), name@, 0);
    }
    let p = port_position(list, name);
    proof {
        if names(list@).contains(name@) {
            let k = choose|k: int| 0 <= k < names(list@).len() && names(list@)[k] == name@;
            assert(names(list@)[k] == name@);
        }
    }
    p.is_some()
}

pub(crate) fn push_debug_names(t: &mut Vec<char>, list: &Vec<String>)
    ensures
        final(t)@ == old(t)@ + debug_names(names(list@)),
{
    let ghost head = t@;
    let ghost ns = names(list@);
    push_str(t, "[");
    let ghost open = t@;
    let mut k: usize = 0;
    while k < list.len()
        invariant
            k <= list@.len(),
            ns == names(list@),
            open == head + "["@,
            t@ == open + joined_quoted(ns, k as nat),
        decreases list.len() - k,
    {
        if k > 0 {
            push_str(t, ", ");
        }
        crate::module::push_quoted(t, list[k].as_str());
        k = k + 1;
        proof {
            assert(ns[k - 1] == list@[k - 1]@);
            assert(t@ =~= open + joined_quoted(ns, k as nat));
        }
    }
    push_str(t, "]");
    proof {
        assert(ns.len() == list@.len());
        assert(t@ =~= head + debug_names(ns));
    }
}

fn missing_module_port_text(name: &String, direction: &str, port: &String, available: &Vec<String>) -> (r: String)
    ensures
        r@ == missing_module_port_msg(name@, direction@, port@, names(available@)),
{
    let mut t = chars_of("Module '");
    push_str(&mut t, name.as_str());
    push_str(&mut t, "' does not have ");
    push_str(&mut t, direction);
    push_str(&mut t, " port '");
    push_str(&mut t, port.as_str());
    push_str(&mut t, "'. Available: ");
    push_debug_names(&mut t, available);
    proof {
        assert(t@ =~= missing_module_port_msg(name@, direction@, port@, names(available@)));
    }
    string_of(&t)
}

/// Checks that a module has input port `port`; the error names the module
/// and lists its input ports.
pub fn validate_input_port(module: &ModuleEntry, port: &String) -> (r: Result<(), String>)
    ensures
        r is Ok <==> names(module.inputs@).contains(port@),
        r matches Err(e) ==> e@ == missing_module_port_msg(module.name@, "input"@, port@, names(module.inputs@)),
{
    if contains_position(&module.inputs, port) {
        Ok(())
    } else {
        Err(missing_module_port_text(&module.name, "input", port, &module.inputs))
    }
}

/// Checks that a module has output port `port`; the error names the module
/// and lists its output ports.
pub fn validate_output_port(module: &ModuleEntry, port: &String) -> (r: Result<(), String>)
    ensures
        r is Ok <==> names(module.outputs@).contains(port@),
        r matches Err(e) ==> e@ == missing_module_port_msg(module.name@, "output"@, port@, names(module.outputs@)),
{
    if contains_position(&module.outputs, port) {
        Ok(())
    } else {
        Err(missing_module_port_text(&module.name, "output", port, &module.outputs))
    }
}

/// The names without repeats, in order of first appearance.
pub fn unique_port_names(ns: &Vec<String>) -> (r: Vec<String>)
    ensures
        names(r@) == unique_names(names(ns@), ns@.len() as int),
{
    let ghost v = names(ns@);
    let mut r: Vec<String> = Vec::new();
    let mut k: usize = 0;
    while k < ns.len()
        invariant
            k <= ns@.len(),
            v == names(ns@),
            names(r@) == unique_names(v, k as int),
        decreases ns.len() - k,
    {
        proof {
            assert(v[k as int] == ns@[k as int]@);
        }
        if !contains_position(&r, &ns[k]) {
            let ghost before = names(r@);
            r.push(copy_string(&ns[k]));
            proof {
                assert(names(r@) =~= before.push(v[k as int]));
            }
        }
        k = k + 1;
    }
    r
}

} // verus!

verus! {

fn surface_index(surfaces: &Vec<(String, Vec<String>)>, id: &String) -> (r: Option<usize>)
    ensures
        r matches Some(i) ==> i < surfaces@.len() && surface_of(surfaces_view(surfaces@), id@, 0) == Some(i as int),
        r is None ==> surface_of(surfaces_view(surfaces@), id@, 0) is None,
{
    let ghost v = surfaces_view(surfaces@);
    let mut i: usize = 0;
    while i < surfaces.len()
        invariant
            i <= surfaces@.len(),
            v == surfaces_view(surfaces@),
            surface_of(v, id@, 0) == surface_of(v, id@, i as int),
        decreases surfaces.len() - i,
    {
        if str_equal(surfaces[i].0.as_str(), id.as_str()) {
            return Some(i);
        }
        i = i + 1;
    }
    None
}

pub open spec fn surfaces_view(s: Seq<(String, Vec<String>)>) -> Seq<(Seq<char>, Seq<Seq<char>>)> {
    Seq::new(s.len(), |i: int| (s[i].0@, names(s[i].1@)))
}

proof fn lemma_problem_stays_inputs(def: InventionV, ms: Seq<EntryV>, k: int, n: int)
    requires
        0 < k <= n <= def.inputs.len(),
        inputs_problem(def, ms, k) is Some,
    ensures
        inputs_problem(def, ms, n) == inputs_problem(def, ms, k),
    decreases n - k,
{
    if k < n {
        lemma_problem_stays_inputs(def, ms, k, n - 1);
    }
}

proof fn lemma_problem_stays_outputs(def: InventionV, ms: Seq<EntryV>, k: int, n: int)
    requires
        0 < k <= n <= def.outputs.len(),
        outputs_problem(def, ms, k) is Some,
    ensures
        outputs_problem(def, ms, n) == outputs_problem(def, ms, k),
    decreases n - k,
{
    if k < n {
        lemma_problem_stays_outputs(def, ms, k, n - 1);
    }
}

proof fn lemma_problem_stays_controls(def: InventionV, s: Seq<(Seq<char>, Seq<Seq<char>>)>, k: int, n: int)
    requires
        0 < k <= n <= def.controls.len(),
        controls_problem(def, s, k) is Some,
    ensures
        controls_problem(def, s, n) == controls_problem(def, s, k),
    decreases n - k,
{
    if k < n {
        lemma_problem_stays_controls(def, s, k, n - 1);
    }
}

/// The first problem with a development build, checked in order: exposed
/// inputs, exposed outputs, exposed controls.
pub open spec fn development_problem(def: InventionV, ms: Seq<EntryV>, s: Seq<(Seq<char>, Seq<Seq<char>>)>) -> Option<Seq<char>> {
    match inputs_problem(def, ms, def.inputs.len() as int) {
        Some(e) => Some(e),
        None => match outputs_problem(def, ms, def.outputs.len() as int) {
            Some(e) => Some(e),
            None => controls_problem(def, s, def.controls.len() as int),
        },
    }
}

/// Checks a development's exposed inputs, outputs and controls against its
/// built sub-modules (in definition order) and their control surfaces, and
/// routes each exposed port to a sub-module port (see [`routes_ok`]).
/// Exposed outputs must have distinct names: each output port is named by
/// its position among the distinct names.
pub fn plan_development(definition: &Invention, modules: &Vec<ModuleEntry>, surfaces: &Vec<(String, Vec<String>)>)
    -> (r: Result<DevelopmentRoutes, String>)
    requires
        output_names(definition.view()).no_duplicates(),
    ensures
        match development_problem(definition.view(), entries_view(modules@), surfaces_view(surfaces@)) {
            Some(e) => r matches Err(x) && x@ == e,
            None => r matches Ok(routes) && routes_ok(definition.view(), entries_view(modules@), surfaces_view(surfaces@), routes),
        },
{
    let ghost def = definition.view();
    let ghost ms = entries_view(modules@);
    let ghost sv = surfaces_view(surfaces@);
    // exposed inputs
    let mut k: usize = 0;
    while k < definition.inputs.len()
        invariant
            k <= definition.inputs@.len(),
            def == definition.view(),
            ms == entries_view(modules@),
            def.inputs.len() == definition.inputs@.len(),
            inputs_problem(def, ms, k as int) is None,
        decreases definition.inputs.len() - k,
    {
        let input = &definition.inputs[k];
        proof {
            assert(def.inputs[k as int] == (input.name@, input.to@, input.to_port@));
        }
        match find_entry(modules, &input.to) {
            None => {
                proof {
                    lemma_problem_stays_inputs(def, ms, k + 1, def.inputs.len() as int);
                }
                let mut t = chars_of("Unknown input target module: ");
                push_str(&mut t, input.to.as_str());
                return Err(string_of(&t));
            },
            Some(m) => {
                proof {
                    assert(ms[m as int] == modules@[m as int].view());
                }
                match validate_input_port(&modules[m], &input.to_port) {
                    Ok(()) => {},
                    Err(e) => {
                        proof {
                            lemma_problem_stays_inputs(def, ms, k + 1, def.inputs.len() as int);
                        }
                        return Err(e);
                    },
                }
            },
        }
        k = k + 1;
    }
    // exposed outputs
    let mut k: usize = 0;
    while k < definition.outputs.len()
        invariant
            k <= definition.outputs@.len(),
            def == definition.view(),
            ms == entries_view(modules@),
            def.outputs.len() == definition.outputs@.len(),
            inputs_problem(def, ms, def.inputs.len() as int) is None,
            outputs_problem(def, ms, k as int) is None,
        decreases definition.outputs.len() - k,
    {
        let output = &definition.outputs[k];
        proof {
            assert(def.outputs[k as int] == (output.name@, output.from@, output.from_port@));
        }
        match find_entry(modules, &output.from) {
            None => {
                proof {
                    lemma_problem_stays_outputs(def, ms, k + 1, def.outputs.len() as int);
                }
                let mut t = chars_of("Unknown output source module: ");
                push_str(&mut t, output.from.as_str());
                return Err(string_of(&t));
            },
            Some(m) => {
                proof {
                    assert(ms[m as int] == modules@[m as int].view());
                }
                match validate_output_port(&modules[m], &output.from_port) {
                    Ok(()) => {},
                    Err(e) => {
                        proof {
                            lemma_problem_stays_outputs(def, ms, k + 1, def.outputs.len() as int);
                        }
                        return Err(e);
                    },
                }
            },
        }
        k = k + 1;
    }
    // exposed controls
    let mut controls: Vec<AliasedControl> = Vec::new();
    let mut k: usize = 0;
    while k < definition.controls.len()
        invariant
            k <= definition.controls@.len(),
            def == definition.view(),
            ms == entries_view(modules@),
            sv == surfaces_view(surfaces@),
            def.controls.len() == definition.controls@.len(),
            inputs_problem(def, ms, def.inputs.len() as int) is None,
            outputs_problem(def, ms, def.outputs.len() as int) is None,
            controls_problem(def, sv, k as int) is None,
            controls@.len() == k,
            forall|i: int| 0 <= i < k ==>
                ((#[trigger] controls@[i]).key@, controls@[i].module_id@, controls@[i].control@) == def.controls[i],
        decreases definition.controls.len() - k,
    {
        let c = &definition.controls[k];
        proof {
            assert(def.controls[k as int] == (c.key@, c.module@, c.control@));
        }
        match surface_index(surfaces, &c.module) {
            None => {
                proof {
                    lemma_problem_stays_controls(def, sv, k + 1, def.controls.len() as int);
                }
                let mut t = chars_of("Unknown control module: ");
                push_str(&mut t, c.module.as_str());
                return Err(string_of(&t));
            },
            Some(s) => {
                proof {
                    assert(sv[s as int] == (surfaces@[s as int].0@, names(surfaces@[s as int].1@)));
                }
                if !contains_position(&surfaces[s].1, &c.control) {
                    proof {
                        lemma_problem_stays_controls(def, sv, k + 1, def.controls.len() as int);
                    }
                    let mut t = chars_of("Unknown control '");
                    push_str(&mut t, c.control.as_str());
                    push_str(&mut t, "' on module '");
                    push_str(&mut t, c.module.as_str());
                    push_str(&mut t, "'");
                    return Err(string_of(&t));
                }
            },
        }
        controls.push(AliasedControl { key: copy_string(&c.key), module_id: copy_string(&c.module), control: copy_string(&c.control) });
        k = k + 1;
    }
    // exposed port names
    let mut in_names: Vec<String> = Vec::new();
    let mut k: usize = 0;
    while k < definition.inputs.len()
        invariant
            k <= definition.inputs@.len(),
            def == definition.view(),
            def.inputs.len() == definition.inputs@.len(),
            names(in_names@) == input_names(def).take(k as int),
        decreases definition.inputs.len() - k,
    {
        let ghost before = names(in_names@);
        in_names.push(copy_string(&definition.inputs[k].name));
        proof {
            assert(def.inputs[k as int].0 == definition.inputs@[k as int].name@);
            assert(names(in_names@) =~= before.push(definition.inputs@[k as int].name@));
            assert(input_names(def).take(k + 1) =~= input_names(def).take(k as int).push(input_names(def)[k as int]));
            assert(names(in_names@) =~= input_names(def).take(k + 1));
        }
        k = k + 1;
    }
    let mut out_names: Vec<String> = Vec::new();
    let mut k: usize = 0;
    while k < definition.outputs.len()
        invariant
            k <= definition.outputs@.len(),
            def == definition.view(),
            def.outputs.len() == definition.outputs@.len(),
            names(out_names@) == output_names(def).take(k as int),
        decreases definition.outputs.len() - k,
    {
        let ghost before = names(out_names@);
        out_names.push(copy_string(&definition.outputs[k].name));
        proof {
            assert(def.outputs[k as int].0 == definition.outputs@[k as int].name@);
            assert(names(out_names@) =~= before.push(definition.outputs@[k as int].name@));
            assert(output_names(def).take(k + 1) =~= output_names(def).take(k as int).push(output_names(def)[k as int]));
            assert(names(out_names@) =~= output_names(def).take(k + 1));
        }
        k = k + 1;
    }
    proof {
        assert(input_names(def).take(def.inputs.len() as int) =~= input_names(def));
        assert(output_names(def).take(def.outputs.len() as int) =~= output_names(def));
    }
    let input_ports = unique_port_names(&in_names);
    let output_ports = unique_port_names(&out_names);
    let ghost ports = names(input_ports@);
    // routes of the exposed inputs
    let mut input_routes: Vec<Vec<PortRoute>> = Vec::new();
    let mut j: usize = 0;
    while j < input_ports.len()
        invariant
            j <= input_ports@.len(),
            input_routes@.len() == j,
            forall|x: int| 0 <= x < j ==> (#[trigger] input_routes@[x])@.len() == 0,
        decreases input_ports.len() - j,
    {
        input_routes.push(Vec::new());
        j = j + 1;
    }
    proof {
        let z = input_routes_fold(def, ms, ports, 0);
        assert forall|x: int| 0 <= x < z.len() implies
            Seq::new((#[trigger] input_routes@[x])@.len(), |y: int| (input_routes@[x]@[y].module_index as int, input_routes@[x]@[y].port_index as int)) == z[x] by {
            assert(Seq::new(input_routes@[x]@.len(), |y: int| (input_routes@[x]@[y].module_index as int, input_routes@[x]@[y].port_index as int)) =~= z[x]);
        }
    }
    let mut k: usize = 0;
    while k < definition.inputs.len()
        invariant
            k <= definition.inputs@.len(),
            def == definition.view(),
            ms == entries_view(modules@),
            def.inputs.len() == definition.inputs@.len(),
            ports == names(input_ports@),
            input_routes@.len() == ports.len(),
            forall|x: int| 0 <= x < ports.len() ==>
                Seq::new((#[trigger] input_routes@[x])@.len(), |y: int| (input_routes@[x]@[y].module_index as int, input_routes@[x]@[y].port_index as int))
                    == input_routes_fold(def, ms, ports, k as int)[x],
            input_routes_fold(def, ms, ports, k as int).len() == ports.len(),
        decreases definition.inputs.len() - k,
    {
        let input = &definition.inputs[k];
        proof {
            assert(def.inputs[k as int] == (input.name@, input.to@, input.to_port@));
            lemma_position(ports, input.name@, 0);
        }
        let ghost before = input_routes_fold(def, ms, ports, k as int);
        match (port_position(&input_ports, &input.name), find_entry(modules, &input.to)) {
            (Some(jj), Some(m)) => {
                proof {
                    assert(ms[m as int] == modules@[m as int].view());
                }
                match port_position(&modules[m].inputs, &input.to_port) {
                    Some(p) => {
                        let mut rj: Vec<PortRoute> = Vec::new();
                        let mut y: usize = 0;
                        while y < input_routes[jj].len()
                            invariant
                                jj < input_routes@.len(),
                                y <= input_routes@[jj as int]@.len(),
                                rj@.len() == y,
                                forall|z: int| 0 <= z < y ==> (#[trigger] rj@[z]).module_index == input_routes@[jj as int]@[z].module_index
                                    && rj@[z].port_index == input_routes@[jj as int]@[z].port_index,
                            decreases input_routes@[jj as int]@.len() - y,
                        {
                            let e = &input_routes[jj][y];
                            rj.push(PortRoute { module_index: e.module_index, port_index: e.port_index });
                            y = y + 1;
                        }
                        rj.push(PortRoute { module_index: m, port_index: p });
                        let ghost old_routes = input_routes@;
                        input_routes.set(jj, rj);
                        proof {
                            let after = input_routes_fold(def, ms, ports, k + 1);
                            assert(after == before.update(jj as int, before[jj as int].push((m as int, p as int))));
                            assert forall|x: int| 0 <= x < ports.len() implies
                                Seq::new((#[trigger] input_routes@[x])@.len(), |y: int| (input_routes@[x]@[y].module_index as int, input_routes@[x]@[y].port_index as int))
                                    == after[x] by {
                                if x == jj {
                                    assert(Seq::new(input_routes@[x]@.len(), |y: int| (input_routes@[x]@[y].module_index as int, input_routes@[x]@[y].port_index as int))
                                        =~= before[x].push((m as int, p as int))) by {
                                        assert(Seq::new(old_routes[x]@.len(), |y: int| (old_routes[x]@[y].module_index as int, old_routes[x]@[y].port_index as int)) == before[x]);
                                    }
                                } else {
                                    assert(input_routes@[x] == old_routes[x]);
                                }
                            }
                        }
                    },
                    None => {},
                }
            },
            _ => {},
        }
        k = k + 1;
    }
    // routes of the exposed outputs
    let mut outputs: Vec<OutputRoute> = Vec::new();
    let mut k: usize = 0;
    while k < definition.outputs.len()
        invariant
            k <= definition.outputs@.len(),
            def == definition.view(),
            ms == entries_view(modules@),
            def.outputs.len() == definition.outputs@.len(),
            outputs@.len() == k,
            forall|i: int| 0 <= i < k ==> {
                &&& (#[trigger] outputs@[i]).name@ == def.outputs[i].0
                &&& (outputs@[i].module_index as int, outputs@[i].port_index as int) == output_route(def, ms, i)
            },
        decreases definition.outputs.len() - k,
    {
        let output = &definition.outputs[k];
        proof {
            assert(def.outputs[k as int] == (output.name@, output.from@, output.from_port@));
        }
        let (mi, pi) = match find_entry(modules, &output.from) {
            Some(m) => {
                proof {
                    assert(ms[m as int] == modules@[m as int].view());
                }
                match port_position(&modules[m].outputs, &output.from_port) {
                    Some(p) => (m, p),
                    None => (0, 0),
                }
            },
            None => (0, 0),
        };
        outputs.push(OutputRoute { name: copy_string(&output.name), module_index: mi, port_index: pi });
        k = k + 1;
    }
    Ok(DevelopmentRoutes { input_ports, output_ports, input_routes, outputs, controls })
}

} // verus!

verus! {

/// The error for a development config that is not an object.
pub open spec fn config_shape_msg(name: Seq<char>) -> Seq<char> {
    "Development '"@ + name + "' config must be an object"@
}

/// The members of a development instance's config, applied in order as
/// initial values of its exposed controls: none for a null config, an
/// error for anything but an object.
pub fn development_config_entries(name: &String, config: &Json) -> (r: Result<Vec<(String, Json)>, String>)
    ensures
        match config.view() {
            JsonV::Null => r matches Ok(v) && v@.len() == 0,
            JsonV::Object(m) => r matches Ok(v) && crate::json::members_view(v@) == m,
            _ => r matches Err(e) && e@ == config_shape_msg(name@),
        },
{
    match config {
        Json::Null => Ok(Vec::new()),
        Json::Object(m) => {
            let c = crate::json::json_clone(config);
            match c {
                Json::Object(v) => Ok(v),
                _ => Ok(Vec::new()),
            }
        },
        _ => {
            let mut t = chars_of("Development '");
            push_str(&mut t, name.as_str());
            push_str(&mut t, "' config must be an object");
            Err(string_of(&t))
        },
    }
}

/// The error for a development config value that is not a scalar.
pub open spec fn config_value_msg(name: Seq<char>, key: Seq<char>) -> Seq<char> {
    "Development '"@ + name + "' config key '"@ + key + "' must be a number, bool, or string"@
}

/// One config member as the control value it sets.
pub fn development_config_value(name: &String, key: &String, value: &Json) -> (r: Result<crate::rpc::ControlValue, String>)
    ensures
        match crate::reload::scalar_spec(value.view()) {
            Some(c) => r matches Ok(x) && x.view() == c,
            None => r matches Err(e) && e@ == config_value_msg(name@, key@),
        },
{
    match crate::reload::scalar_control_value(value) {
        Some(c) => Ok(c),
        None => {
            let mut t = chars_of("Development '");
            push_str(&mut t, name.as_str());
            push_str(&mut t, "' config key '");
            push_str(&mut t, key.as_str());
            push_str(&mut t, "' must be a number, bool, or string");
            Err(string_of(&t))
        },
    }
}

/// Finds exposed control `key`: its alias and the control surface of the
/// module it aliases.
pub fn lookup_control(controls: &Vec<AliasedControl>, surfaces: &Vec<(String, Vec<String>)>, key: &String)
    -> (r: Result<(usize, usize), String>)
    ensures
        match r {
            Ok((c, s)) => c < controls@.len() && controls@[c as int].key@ == key@
                && (forall|i: int| 0 <= i < c ==> controls@[i].key@ != key@)
                && surface_of(surfaces_view(surfaces@), controls@[c as int].module_id@, 0) == Some(s as int),
            Err(e) => {
                ||| ((forall|i: int| 0 <= i < controls@.len() ==> controls@[i].key@ != key@) && e@ == "Unknown control: "@ + key@)
                ||| (exists|c: int| 0 <= c < controls@.len() && controls@[c].key@ == key@
                    && (forall|i: int| 0 <= i < c ==> controls@[i].key@ != key@)
                    && surface_of(surfaces_view(surfaces@), controls@[c].module_id@, 0) is None
                    && e@ == "Unknown control module: "@ + controls@[c].module_id@)
            },
        },
{
    let mut c: usize = 0;
    while c < controls.len()
        invariant
            c <= controls@.len(),
            forall|i: int| 0 <= i < c ==> controls@[i].key@ != key@,
        decreases controls.len() - c,
    {
        if str_equal(controls[c].key.as_str(), key.as_str()) {
            return match surface_index(surfaces, &controls[c].module_id) {
                Some(s) => Ok((c, s)),
                None => {
                    let mut t = chars_of("Unknown control module: ");
                    push_str(&mut t, controls[c].module_id.as_str());
                    Err(string_of(&t))
                },
            };
        }
        c = c + 1;
    }
    let mut t = chars_of("Unknown control: ");
    push_str(&mut t, key.as_str());
    Err(string_of(&t))
}

} // verus!
