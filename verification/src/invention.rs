//! The declarative invention document: modules with their configs, the
//! connections between them, and development (sub-patch) definitions.

use vstd::prelude::*;
use crate::json::{Json, JsonV, json_clone, json_equal};
use crate::text::{chars_of, str_equal, string_of};

verus! {

/// A module instance: id, registered type and configuration.
pub struct ModuleSpec {
    pub id: String,
    pub module_type: String,
    pub config: Json,
}

/// A connection between two modules' ports; unnamed ports are `None`.
pub struct InventionConnection {
    pub from: String,
    pub to: String,
    pub from_port: Option<String>,
    pub to_port: Option<String>,
}

/// A development: a named sub-patch, loaded from a path or given inline.
pub struct DevelopmentSpec {
    pub name: String,
    pub path: Option<String>,
    pub definition: Option<Box<Invention>>,
}

/// An external input of a development, routed to a module port.
pub struct DevelopmentInput {
    pub name: String,
    pub to: String,
    pub to_port: String,
}

/// An external output of a development, read from a module port.
pub struct DevelopmentOutput {
    pub name: String,
    pub from: String,
    pub from_port: String,
}

/// A control a development exposes, forwarded to a module's control.
pub struct DevelopmentControl {
    pub key: String,
    pub module: String,
    pub control: String,
}

/// A named asset file.
pub struct AssetSpec {
    pub path: String,
}

/// An invention document.
pub struct Invention {
    pub version: String,
    pub title: Option<String>,
    pub description: Option<String>,
    pub developments: Vec<DevelopmentSpec>,
    /// Assets by name, in name order.
    pub assets: Vec<(String, AssetSpec)>,
    pub modules: Vec<ModuleSpec>,
    pub connections: Vec<InventionConnection>,
    pub inputs: Vec<DevelopmentInput>,
    pub outputs: Vec<DevelopmentOutput>,
    pub controls: Vec<DevelopmentControl>,
    pub source_path: Option<String>,
}

// ---------------------------------------------------------------------------
// Plain-value views

pub struct ModuleSpecV {
    pub id: Seq<char>,
    pub module_type: Seq<char>,
    pub config: JsonV,
}

pub struct ConnectionV {
    pub from: Seq<char>,
    pub to: Seq<char>,
    pub from_port: Option<Seq<char>>,
    pub to_port: Option<Seq<char>>,
}

pub struct DevelopmentV {
    pub name: Seq<char>,
    pub path: Option<Seq<char>>,
    pub definition: Option<InventionV>,
}

pub struct InventionV {
    pub version: Seq<char>,
    pub title: Option<Seq<char>>,
    pub description: Option<Seq<char>>,
    pub developments: Seq<DevelopmentV>,
    pub assets: Seq<(Seq<char>, Seq<char>)>,
    pub modules: Seq<ModuleSpecV>,
    pub connections: Seq<ConnectionV>,
    pub inputs: Seq<(Seq<char>, Seq<char>, Seq<char>)>,
    pub outputs: Seq<(Seq<char>, Seq<char>, Seq<char>)>,
    pub controls: Seq<(Seq<char>, Seq<char>, Seq<char>)>,
    pub source_path: Option<Seq<char>>,
}

pub open spec fn opt_view(o: Option<String>) -> Option<Seq<char>> {
    match o {
        Some(s) => Some(s@),
        None => None,
    }
}

impl ModuleSpec {
    pub open spec fn view(&self) -> ModuleSpecV {
        ModuleSpecV { id: self.id@, module_type: self.module_type@, config: self.config.view() }
    }
}

impl InventionConnection {
    pub open spec fn view(&self) -> ConnectionV {
        ConnectionV {
            from: self.from@,
            to: self.to@,
            from_port: opt_view(self.from_port),
            to_port: opt_view(self.to_port),
        }
    }
}

impl Invention {
    pub open spec fn view(&self) -> InventionV
        decreases self,
    {
        InventionV {
            version: self.version@,
            title: opt_view(self.title),
            description: opt_view(self.description),
            developments: developments_view(self.developments@),
            assets: Seq::new(self.assets@.len(), |i: int| (self.assets@[i].0@, self.assets@[i].1.path@)),
            modules: Seq::new(self.modules@.len(), |i: int| self.modules@[i].view()),
            connections: Seq::new(self.connections@.len(), |i: int| self.connections@[i].view()),
            inputs: Seq::new(self.inputs@.len(), |i: int| (self.inputs@[i].name@, self.inputs@[i].to@, self.inputs@[i].to_port@)),
            outputs: Seq::new(self.outputs@.len(), |i: int| (self.outputs@[i].name@, self.outputs@[i].from@, self.outputs@[i].from_port@)),
            controls: Seq::new(self.controls@.len(), |i: int| (self.controls@[i].key@, self.controls@[i].module@, self.controls@[i].control@)),
            source_path: opt_view(self.source_path),
        }
    }
}

/// The views of a list of developments.
pub open spec fn developments_view(ds: Seq<DevelopmentSpec>) -> Seq<DevelopmentV>
    decreases ds,
{
    if ds.len() == 0 {
        Seq::empty()
    } else {
        let d = ds[ds.len() - 1];
        developments_view(ds.subrange(0, ds.len() - 1)).push(DevelopmentV {
            name: d.name@,
            path: opt_view(d.path),
            definition: match d.definition {
                Some(b) => Some(b.view()),
                None => None,
            },
        })
    }
}

pub proof fn lemma_developments_view(ds: Seq<DevelopmentSpec>)
    ensures
        developments_view(ds).len() == ds.len(),
        forall|i: int| 0 <= i < ds.len() ==> #[trigger] developments_view(ds)[i] == (DevelopmentV {
            name: ds[i].name@,
            path: opt_view(ds[i].path),
            definition: match ds[i].definition {
                Some(b) => Some(b.view()),
                None => None,
            },
        }),
    decreases ds.len(),
{
    if ds.len() > 0 {
        let d = ds.subrange(0, ds.len() - 1);
        lemma_developments_view(d);
        assert forall|i: int| 0 <= i < ds.len() implies #[trigger] developments_view(ds)[i] == (DevelopmentV {
            name: ds[i].name@,
            path: opt_view(ds[i].path),
            definition: match ds[i].definition {
                Some(b) => Some(b.view()),
                None => None,
            },
        }) by {
            if i < ds.len() - 1 {
                assert(developments_view(ds)[i] == developments_view(d)[i]);
                assert(d[i] == ds[i]);
            }
        }
    }
}

// ---------------------------------------------------------------------------
// Equality and copies

fn opt_equal(a: &Option<String>, b: &Option<String>) -> (r: bool)
    ensures
        r == (opt_view(*a) == opt_view(*b)),
{
    match (a, b) {
        (Some(x), Some(y)) => str_equal(x.as_str(), y.as_str()),
        (None, None) => true,
        _ => false,
    }
}

pub fn opt_copy(a: &Option<String>) -> (r: Option<String>)
    ensures
        opt_view(r) == opt_view(*a),
{
    match a {
        Some(x) => Some(string_of(&chars_of(x.as_str()))),
        None => None,
    }
}

pub fn copy_string(s: &String) -> (r: String)
    ensures
        r@ == s@,
{
    string_of(&chars_of(s.as_str()))
}

/// Whether two module specs are equal.
pub fn module_spec_equal(a: &ModuleSpec, b: &ModuleSpec) -> (r: bool)
    ensures
        r == (a.view() == b.view()),
{
    str_equal(a.id.as_str(), b.id.as_str()) && str_equal(a.module_type.as_str(), b.module_type.as_str())
        && json_equal(&a.config, &b.config)
}

/// A copy of a module spec.
pub fn module_spec_clone(a: &ModuleSpec) -> (r: ModuleSpec)
    ensures
        r.view() == a.view(),
{
    ModuleSpec { id: copy_string(&a.id), module_type: copy_string(&a.module_type), config: json_clone(&a.config) }
}

/// Whether two connections are equal.
pub fn connection_equal(a: &InventionConnection, b: &InventionConnection) -> (r: bool)
    ensures
        r == (a.view() == b.view()),
{
    str_equal(a.from.as_str(), b.from.as_str()) && str_equal(a.to.as_str(), b.to.as_str())
        && opt_equal(&a.from_port, &b.from_port) && opt_equal(&a.to_port, &b.to_port)
}

fn triples_equal(a: &Vec<(String, String, String)>, b: &Vec<(String, String, String)>) -> (r: bool)
    ensures
        r == (Seq::new(a@.len(), |i: int| (a@[i].0@, a@[i].1@, a@[i].2@))
            == Seq::new(b@.len(), |i: int| (b@[i].0@, b@[i].1@, b@[i].2@))),
{
    let ghost sa = Seq::new(a@.len(), |i: int| (a@[i].0@, a@[i].1@, a@[i].2@));
    let ghost sb = Seq::new(b@.len(), |i: int| (b@[i].0@, b@[i].1@, b@[i].2@));
    if a.len() != b.len() {
        proof {
            assert(sa.len() != sb.len());
        }
        return false;
    }
    let mut i: usize = 0;
    while i < a.len()
        invariant
            a@.len() == b@.len(),
            i <= a@.len(),
            sa == Seq::new(a@.len(), |i: int| (a@[i].0@, a@[i].1@, a@[i].2@)),
            sb == Seq::new(b@.len(), |i: int| (b@[i].0@, b@[i].1@, b@[i].2@)),
            forall|k: int| 0 <= k < i ==> sa[k] == sb[k],
        decreases a.len() - i,
    {
        if !(str_equal(a[i].0.as_str(), b[i].0.as_str()) && str_equal(a[i].1.as_str(), b[i].1.as_str())
            && str_equal(a[i].2.as_str(), b[i].2.as_str())) {
            proof {
                assert(sa[i as int] != sb[i as int]);
            }
            return false;
        }
        i = i + 1;
    }
    proof {
        assert(sa =~= sb);
    }
    true
}

fn inputs_triples(v: &Vec<DevelopmentInput>) -> (r: Vec<(String, String, String)>)
    ensures
        Seq::new(r@.len(), |i: int| (r@[i].0@, r@[i].1@, r@[i].2@))
            == Seq::new(v@.len(), |i: int| (v@[i].name@, v@[i].to@, v@[i].to_port@)),
{
    let mut r: Vec<(String, String, String)> = Vec::new();
    let mut i: usize = 0;
    while i < v.len()
        invariant
            i <= v@.len(),
            r@.len() == i,
            forall|k: int| 0 <= k < i ==> (r@[k].0@, r@[k].1@, r@[k].2@) == (v@[k].name@, v@[k].to@, v@[k].to_port@),
        decreases v.len() - i,
    {
        r.push((copy_string(&v[i].name), copy_string(&v[i].to), copy_string(&v[i].to_port)));
        i = i + 1;
    }
    proof {
        assert(Seq::new(r@.len(), |i: int| (r@[i].0@, r@[i].1@, r@[i].2@))
            =~= Seq::new(v@.len(), |i: int| (v@[i].name@, v@[i].to@, v@[i].to_port@)));
    }
    r
}

fn outputs_triples(v: &Vec<DevelopmentOutput>) -> (r: Vec<(String, String, String)>)
    ensures
        Seq::new(r@.len(), |i: int| (r@[i].0@, r@[i].1@, r@[i].2@))
            == Seq::new(v@.len(), |i: int| (v@[i].name@, v@[i].from@, v@[i].from_port@)),
{
    let mut r: Vec<(String, String, String)> = Vec::new();
    let mut i: usize = 0;
    while i < v.len()
        invariant
            i <= v@.len(),
            r@.len() == i,
            forall|k: int| 0 <= k < i ==> (r@[k].0@, r@[k].1@, r@[k].2@) == (v@[k].name@, v@[k].from@, v@[k].from_port@),
        decreases v.len() - i,
    {
        r.push((copy_string(&v[i].name), copy_string(&v[i].from), copy_string(&v[i].from_port)));
        i = i + 1;
    }
    proof {
        assert(Seq::new(r@.len(), |i: int| (r@[i].0@, r@[i].1@, r@[i].2@))
            =~= Seq::new(v@.len(), |i: int| (v@[i].name@, v@[i].from@, v@[i].from_port@)));
    }
    r
}

fn controls_triples(v: &Vec<DevelopmentControl>) -> (r: Vec<(String, String, String)>)
    ensures
        Seq::new(r@.len(), |i: int| (r@[i].0@, r@[i].1@, r@[i].2@))
            == Seq::new(v@.len(), |i: int| (v@[i].key@, v@[i].module@, v@[i].control@)),
{
    let mut r: Vec<(String, String, String)> = Vec::new();
    let mut i: usize = 0;
    while i < v.len()
        invariant
            i <= v@.len(),
            r@.len() == i,
            forall|k: int| 0 <= k < i ==> (r@[k].0@, r@[k].1@, r@[k].2@) == (v@[k].key@, v@[k].module@, v@[k].control@),
        decreases v.len() - i,
    {
        r.push((copy_string(&v[i].key), copy_string(&v[i].module), copy_string(&v[i].control)));
        i = i + 1;
    }
    proof {
        assert(Seq::new(r@.len(), |i: int| (r@[i].0@, r@[i].1@, r@[i].2@))
            =~= Seq::new(v@.len(), |i: int| (v@[i].key@, v@[i].module@, v@[i].control@)));
    }
    r
}

/// Whether two invention documents are equal.
pub fn invention_equal(a: &Invention, b: &Invention) -> (r: bool)
    ensures
        r == (a.view() == b.view()),
    decreases a,
{
    let ghost av = a.view();
    let ghost bv = b.view();
    if !str_equal(a.version.as_str(), b.version.as_str()) || !opt_equal(&a.title, &b.title)
        || !opt_equal(&a.description, &b.description) || !opt_equal(&a.source_path, &b.source_path) {
        return false;
    }
    // developments
    proof {
        lemma_developments_view(a.developments@);
        lemma_developments_view(b.developments@);
    }
    if a.developments.len() != b.developments.len() {
        proof {
            assert(av.developments.len() != bv.developments.len());
        }
        return false;
    }
    let mut i: usize = 0;
    while i < a.developments.len()
        invariant
            a.developments@.len() == b.developments@.len(),
            i <= a.developments@.len(),
            av == a.view(),
            bv == b.view(),
            forall|k: int| 0 <= k < i ==> av.developments[k] == bv.developments[k],
        decreases a.developments.len() - i,
    {
        proof {
            lemma_developments_view(a.developments@);
            lemma_developments_view(b.developments@);
        }
        let da = &a.developments[i];
        let db = &b.developments[i];
        let same_def = match (&da.definition, &db.definition) {
            (Some(x), Some(y)) => {
                proof {
                    assert(decreases_to!(*a => a.developments));
                    assert(decreases_to!(a.developments => a.developments@));
                    assert(decreases_to!(a.developments@ => a.developments@[i as int]));
                    assert(decreases_to!(a.developments@[i as int] => a.developments@[i as int].definition));
                    assert(decreases_to!(a.developments@[i as int].definition => a.developments@[i as int].definition->Some_0));
                }
                invention_equal(x, y)
            },
            (None, None) => true,
            _ => false,
        };
        if !(str_equal(da.name.as_str(), db.name.as_str()) && opt_equal(&da.path, &db.path) && same_def) {
            proof {
                assert(av.developments[i as int] != bv.developments[i as int]);
            }
            return false;
        }
        i = i + 1;
    }
    proof {
        assert(av.developments =~= bv.developments);
    }
    // assets
    if a.assets.len() != b.assets.len() {
        proof {
            assert(av.assets.len() != bv.assets.len());
        }
        return false;
    }
    let mut i: usize = 0;
    while i < a.assets.len()
        invariant
            a.assets@.len() == b.assets@.len(),
            i <= a.assets@.len(),
            av == a.view(),
            bv == b.view(),
            forall|k: int| 0 <= k < i ==> av.assets[k] == bv.assets[k],
        decreases a.assets.len() - i,
    {
        if !(str_equal(a.assets[i].0.as_str(), b.assets[i].0.as_str())
            && str_equal(a.assets[i].1.path.as_str(), b.assets[i].1.path.as_str())) {
            proof {
                assert(av.assets[i as int] != bv.assets[i as int]);
            }
            return false;
        }
        i = i + 1;
    }
    proof {
        assert(av.assets =~= bv.assets);
    }
    // modules
    if a.modules.len() != b.modules.len() {
        proof {
            assert(av.modules.len() != bv.modules.len());
        }
        return false;
    }
    let mut i: usize = 0;
    while i < a.modules.len()
        invariant
            a.modules@.len() == b.modules@.len(),
            i <= a.modules@.len(),
            av == a.view(),
            bv == b.view(),
            forall|k: int| 0 <= k < i ==> av.modules[k] == bv.modules[k],
        decreases a.modules.len() - i,
    {
        if !module_spec_equal(&a.modules[i], &b.modules[i]) {
            proof {
                assert(av.modules[i as int] != bv.modules[i as int]);
            }
            return false;
        }
        i = i + 1;
    }
    proof {
        assert(av.modules =~= bv.modules);
    }
    // connections
    if a.connections.len() != b.connections.len() {
        proof {
            assert(av.connections.len() != bv.connections.len());
        }
        return false;
    }
    let mut i: usize = 0;
    while i < a.connections.len()
        invariant
            a.connections@.len() == b.connections@.len(),
            i <= a.connections@.len(),
            av == a.view(),
            bv == b.view(),
            forall|k: int| 0 <= k < i ==> av.connections[k] == bv.connections[k],
        decreases a.connections.len() - i,
    {
        if !connection_equal(&a.connections[i], &b.connections[i]) {
            proof {
                assert(av.connections[i as int] != bv.connections[i as int]);
            }
            return false;
        }
        i = i + 1;
    }
    proof {
        assert(av.connections =~= bv.connections);
    }
    let same_io = triples_equal(&inputs_triples(&a.inputs), &inputs_triples(&b.inputs))
        && triples_equal(&outputs_triples(&a.outputs), &outputs_triples(&b.outputs))
        && triples_equal(&controls_triples(&a.controls), &controls_triples(&b.controls));
    same_io
}


/// A copy of a connection.
pub fn connection_clone(a: &InventionConnection) -> (r: InventionConnection)
    ensures
        r.view() == a.view(),
{
    InventionConnection {
        from: copy_string(&a.from),
        to: copy_string(&a.to),
        from_port: opt_copy(&a.from_port),
        to_port: opt_copy(&a.to_port),
    }
}

/// A deep copy of an invention document, inline development definitions
/// included.
pub fn invention_clone(a: &Invention) -> (r: Invention)
    ensures
        r.view() == a.view(),
    decreases a,
{
    let ghost av = a.view();
    proof {
        lemma_developments_view(a.developments@);
    }
    let mut developments: Vec<DevelopmentSpec> = Vec::new();
    let mut i: usize = 0;
    while i < a.developments.len()
        invariant
            i <= a.developments@.len(),
            av == a.view(),
            developments@.len() == i,
            developments_view(a.developments@) == av.developments,
            av.developments.len() == a.developments@.len(),
            developments_view(developments@).len() == i,
            forall|k: int| 0 <= k < i ==> developments_view(developments@)[k] == #[trigger] av.developments[k],
        decreases a.developments.len() - i,
    {
        proof {
            lemma_developments_view(a.developments@);
        }
        let d = &a.developments[i];
        let definition = match &d.definition {
            Some(x) => {
                proof {
                    assert(decreases_to!(*a => a.developments));
                    assert(decreases_to!(a.developments => a.developments@));
                    assert(decreases_to!(a.developments@ => a.developments@[i as int]));
                    assert(decreases_to!(a.developments@[i as int] => a.developments@[i as int].definition));
                    assert(decreases_to!(a.developments@[i as int].definition => a.developments@[i as int].definition->Some_0));
                }
                Some(Box::new(invention_clone(x)))
            },
            None => None,
        };
        let ghost before = developments@;
        developments.push(DevelopmentSpec { name: copy_string(&d.name), path: opt_copy(&d.path), definition });
        proof {
            lemma_developments_view(developments@);
            lemma_developments_view(before);
            assert forall|k: int| 0 <= k < i + 1 implies developments_view(developments@)[k] == #[trigger] av.developments[k] by {
                if k < i {
                    assert(developments@[k] == before[k]);
                }
            }
        }
        i = i + 1;
    }
    let mut assets: Vec<(String, AssetSpec)> = Vec::new();
    let mut i: usize = 0;
    while i < a.assets.len()
        invariant
            i <= a.assets@.len(),
            assets@.len() == i,
            forall|k: int| 0 <= k < i ==> assets@[k].0@ == a.assets@[k].0@ && assets@[k].1.path@ == a.assets@[k].1.path@,
        decreases a.assets.len() - i,
    {
        assets.push((copy_string(&a.assets[i].0), AssetSpec { path: copy_string(&a.assets[i].1.path) }));
        i = i + 1;
    }
    let mut modules: Vec<ModuleSpec> = Vec::new();
    let mut i: usize = 0;
    while i < a.modules.len()
        invariant
            i <= a.modules@.len(),
            modules@.len() == i,
            forall|k: int| 0 <= k < i ==> modules@[k].view() == a.modules@[k].view(),
        decreases a.modules.len() - i,
    {
        modules.push(module_spec_clone(&a.modules[i]));
        i = i + 1;
    }
    let mut connections: Vec<InventionConnection> = Vec::new();
    let mut i: usize = 0;
    while i < a.connections.len()
        invariant
            i <= a.connections@.len(),
            connections@.len() == i,
            forall|k: int| 0 <= k < i ==> connections@[k].view() == a.connections@[k].view(),
        decreases a.connections.len() - i,
    {
        connections.push(connection_clone(&a.connections[i]));
        i = i + 1;
    }
    let mut inputs: Vec<DevelopmentInput> = Vec::new();
    let mut i: usize = 0;
    while i < a.inputs.len()
        invariant
            i <= a.inputs@.len(),
            inputs@.len() == i,
            forall|k: int| 0 <= k < i ==> inputs@[k].name@ == a.inputs@[k].name@ && inputs@[k].to@ == a.inputs@[k].to@
                && inputs@[k].to_port@ == a.inputs@[k].to_port@,
        decreases a.inputs.len() - i,
    {
        let x = &a.inputs[i];
        inputs.push(DevelopmentInput { name: copy_string(&x.name), to: copy_string(&x.to), to_port: copy_string(&x.to_port) });
        i = i + 1;
    }
    let mut outputs: Vec<DevelopmentOutput> = Vec::new();
    let mut i: usize = 0;
    while i < a.outputs.len()
        invariant
            i <= a.outputs@.len(),
            outputs@.len() == i,
            forall|k: int| 0 <= k < i ==> outputs@[k].name@ == a.outputs@[k].name@ && outputs@[k].from@ == a.outputs@[k].from@
                && outputs@[k].from_port@ == a.outputs@[k].from_port@,
        decreases a.outputs.len() - i,
    {
        let x = &a.outputs[i];
        outputs.push(DevelopmentOutput { name: copy_string(&x.name), from: copy_string(&x.from), from_port: copy_string(&x.from_port) });
        i = i + 1;
    }
    let mut controls: Vec<DevelopmentControl> = Vec::new();
    let mut i: usize = 0;
    while i < a.controls.len()
        invariant
            i <= a.controls@.len(),
            controls@.len() == i,
            forall|k: int| 0 <= k < i ==> controls@[k].key@ == a.controls@[k].key@ && controls@[k].module@ == a.controls@[k].module@
                && controls@[k].control@ == a.controls@[k].control@,
        decreases a.controls.len() - i,
    {
        let x = &a.controls[i];
        controls.push(DevelopmentControl { key: copy_string(&x.key), module: copy_string(&x.module), control: copy_string(&x.control) });
        i = i + 1;
    }
    let r = Invention {
        version: copy_string(&a.version),
        title: opt_copy(&a.title),
        description: opt_copy(&a.description),
        developments,
        assets,
        modules,
        connections,
        inputs,
        outputs,
        controls,
        source_path: opt_copy(&a.source_path),
    };
    proof {
        let rv = r.view();
        lemma_developments_view(r.developments@);
        assert(rv.developments.len() == av.developments.len());
        assert(rv.developments =~= av.developments);
        assert(rv.assets =~= av.assets);
        assert(rv.modules =~= av.modules);
        assert(rv.connections =~= av.connections);
        assert(rv.inputs =~= av.inputs);
        assert(rv.outputs =~= av.outputs);
        assert(rv.controls =~= av.controls);
    }
    r
}

} // verus!
