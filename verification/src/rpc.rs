//! Runtime snapshots as served over RPC, and rebuilding a declarative
//! invention from one.

use vstd::prelude::*;
use crate::invention::{ConnectionV, Invention, InventionConnection, InventionV, ModuleSpec, ModuleSpecV, copy_string};
use crate::json::{Json, Number, json_clone};
use crate::runtime::{RuntimeConnectionInfo, RuntimeStatus};
use crate::text::{chars_of, string_of};

verus! {

/// A control value: a number (as JSON writes it), a flag, or text.
#[derive(Clone, Debug, PartialEq)]
pub enum ControlValue {
    Number(Number),
    Bool(bool),
    String(String),
}

pub enum ControlValueV {
    Number(Number),
    Bool(bool),
    String(Seq<char>),
}

impl ControlValue {
    pub open spec fn view(&self) -> ControlValueV {
        match self {
            ControlValue::Number(n) => ControlValueV::Number(*n),
            ControlValue::Bool(b) => ControlValueV::Bool(*b),
            ControlValue::String(s) => ControlValueV::String(s@),
        }
    }
}

/// A copy of a control value.
pub fn control_value_clone(v: &ControlValue) -> (r: ControlValue)
    ensures
        r.view() == v.view(),
{
    match v {
        ControlValue::Number(n) => ControlValue::Number(*n),
        ControlValue::Bool(b) => ControlValue::Bool(*b),
        ControlValue::String(s) => ControlValue::String(copy_string(s)),
    }
}

/// A module in a running invention: id, type and the config it was built from.
pub struct RuntimeModuleInfo {
    pub id: String,
    pub module_type: String,
    pub config: Json,
}

/// One control of a module and its current value, when known.
pub struct RuntimeControlSnapshot {
    pub key: String,
    pub value: Option<ControlValue>,
}

/// A module's port names.
pub struct RuntimePortInfo {
    pub inputs: Vec<String>,
    pub outputs: Vec<String>,
}

/// A module with its controls and ports.
pub struct RuntimeModuleSnapshot {
    pub info: RuntimeModuleInfo,
    pub controls: Vec<RuntimeControlSnapshot>,
    pub ports: RuntimePortInfo,
}

/// Topology, controls and status of a running invention.
pub struct RuntimeFullSnapshot {
    pub modules: Vec<RuntimeModuleSnapshot>,
    pub connections: Vec<RuntimeConnectionInfo>,
    pub status: RuntimeStatus,
}

/// A control value to re-apply after a rebuild: module id, control key, value.
pub type ControlOverride = (String, String, ControlValue);

/// A runtime port name as a document port: empty means the default port.
pub open spec fn optional_port_spec(port: Seq<char>) -> Option<Seq<char>> {
    if port.len() == 0 { None } else { Some(port) }
}

/// Maps a runtime port string to the document's optional port.
pub fn optional_port(port: &String) -> (r: Option<String>)
    ensures
        crate::invention::opt_view(r) == optional_port_spec(port@),
{
    if port.as_str().unicode_len() == 0 {
        None
    } else {
        Some(copy_string(port))
    }
}

/// The invention that rebuilds a snapshot's topology: version "1.0.0", each
/// module from its type and original config, each connection with empty
/// ports as unnamed; nothing else.
pub open spec fn snapshot_invention(s: RuntimeFullSnapshot) -> InventionV {
    InventionV {
        version: "1.0.0"@,
        title: None,
        description: None,
        developments: Seq::empty(),
        assets: Seq::empty(),
        modules: Seq::new(s.modules@.len(), |i: int| ModuleSpecV {
            id: s.modules@[i].info.id@,
            module_type: s.modules@[i].info.module_type@,
            config: s.modules@[i].info.config.view(),
        }),
        connections: Seq::new(s.connections@.len(), |i: int| ConnectionV {
            from: s.connections@[i].from@,
            to: s.connections@[i].to@,
            from_port: optional_port_spec(s.connections@[i].from_port@),
            to_port: optional_port_spec(s.connections@[i].to_port@),
        }),
        inputs: Seq::empty(),
        outputs: Seq::empty(),
        controls: Seq::empty(),
        source_path: None,
    }
}

/// The overrides of the first `k` modules: each known control value, in
/// order.
pub open spec fn overrides_spec(ms: Seq<RuntimeModuleSnapshot>, k: nat) -> Seq<(Seq<char>, Seq<char>, ControlValueV)>
    decreases k,
{
    if k == 0 || k > ms.len() {
        Seq::empty()
    } else {
        overrides_spec(ms, (k - 1) as nat) + module_overrides(ms[k - 1].info.id@, ms[k - 1].controls@, ms[k - 1].controls@.len())
    }
}

/// The known values among the first `k` controls of one module.
pub open spec fn module_overrides(id: Seq<char>, cs: Seq<RuntimeControlSnapshot>, k: nat) -> Seq<(Seq<char>, Seq<char>, ControlValueV)>
    decreases k,
{
    if k == 0 || k > cs.len() {
        Seq::empty()
    } else {
        let rest = module_overrides(id, cs, (k - 1) as nat);
        match cs[k - 1].value {
            Some(v) => rest.push((id, cs[k - 1].key@, v.view())),
            None => rest,
        }
    }
}

pub open spec fn overrides_view(v: Seq<ControlOverride>) -> Seq<(Seq<char>, Seq<char>, ControlValueV)> {
    Seq::new(v.len(), |i: int| (v[i].0@, v[i].1@, v[i].2.view()))
}

impl RuntimeFullSnapshot {
    /// Reconstructs a declarative invention describing the snapshot's
    /// topology (see [`snapshot_invention`]). It carries no control values;
    /// [`RuntimeFullSnapshot::control_overrides`] returns those.
    pub fn to_invention(&self) -> (r: Invention)
        ensures
            r.view() == snapshot_invention(*self),
    {
        let mut modules: Vec<ModuleSpec> = Vec::new();
        let mut i: usize = 0;
        while i < self.modules.len()
            invariant
                i <= self.modules@.len(),
                modules@.len() == i,
                forall|k: int| 0 <= k < i ==> (#[trigger] modules@[k]).view() == (ModuleSpecV {
                    id: self.modules@[k].info.id@,
                    module_type: self.modules@[k].info.module_type@,
                    config: self.modules@[k].info.config.view(),
                }),
            decreases self.modules.len() - i,
        {
            let info = &self.modules[i].info;
            modules.push(ModuleSpec {
                id: copy_string(&info.id),
                module_type: copy_string(&info.module_type),
                config: json_clone(&info.config),
            });
            i = i + 1;
        }
        let mut connections: Vec<InventionConnection> = Vec::new();
        let mut i: usize = 0;
        while i < self.connections.len()
            invariant
                i <= self.connections@.len(),
                connections@.len() == i,
                forall|k: int| 0 <= k < i ==> (#[trigger] connections@[k]).view() == (ConnectionV {
                    from: self.connections@[k].from@,
                    to: self.connections@[k].to@,
                    from_port: optional_port_spec(self.connections@[k].from_port@),
                    to_port: optional_port_spec(self.connections@[k].to_port@),
                }),
            decreases self.connections.len() - i,
        {
            let c = &self.connections[i];
            connections.push(InventionConnection {
                from: copy_string(&c.from),
                to: copy_string(&c.to),
                from_port: optional_port(&c.from_port),
                to_port: optional_port(&c.to_port),
            });
            i = i + 1;
        }
        let r = Invention {
            version: string_of(&chars_of("1.0.0")),
            title: None,
            description: None,
            developments: Vec::new(),
            assets: Vec::new(),
            modules,
            connections,
            inputs: Vec::new(),
            outputs: Vec::new(),
            controls: Vec::new(),
            source_path: None,
        };
        proof {
            let v = r.view();
            let e = snapshot_invention(*self);
            assert(v.modules =~= e.modules);
            assert(v.connections =~= e.connections);
            assert(v.developments =~= e.developments);
            assert(v.assets =~= e.assets);
            assert(v.inputs =~= e.inputs);
            assert(v.outputs =~= e.outputs);
            assert(v.controls =~= e.controls);
        }
        r
    }

    /// The current control values to re-apply after a rebuild: every control
    /// whose value is known, module by module (see [`overrides_spec`]).
    pub fn control_overrides(&self) -> (r: Vec<ControlOverride>)
        ensures
            overrides_view(r@) == overrides_spec(self.modules@, self.modules@.len()),
    {
        let mut r: Vec<ControlOverride> = Vec::new();
        let mut i: usize = 0;
        while i < self.modules.len()
            invariant
                i <= self.modules@.len(),
                overrides_view(r@) == overrides_spec(self.modules@, i as nat),
            decreases self.modules.len() - i,
        {
            let m = &self.modules[i];
            let ghost base = overrides_view(r@);
            let mut j: usize = 0;
            while j < m.controls.len()
                invariant
                    j <= m.controls@.len(),
                    overrides_view(r@) == base + module_overrides(m.info.id@, m.controls@, j as nat),
                decreases m.controls.len() - j,
            {
                let c = &m.controls[j];
                match &c.value {
                    Some(v) => {
                        let ghost before = r@;
                        r.push((copy_string(&m.info.id), copy_string(&c.key), control_value_clone(v)));
                        proof {
                            assert(overrides_view(r@) =~= overrides_view(before).push((m.info.id@, c.key@, v.view())));
                        }
                    },
                    None => {},
                }
                j = j + 1;
            }
            i = i + 1;
        }
        r
    }
}

} // verus!
