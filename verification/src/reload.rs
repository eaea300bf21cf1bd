//! Glitch-free reload: diffing a new invention document against the running
//! graph, and which development types changed.

use vstd::prelude::*;
use crate::invention::{DevelopmentV, Invention, InventionV, ModuleSpec, ModuleSpecV, copy_string, invention_clone, invention_equal, lemma_developments_view, module_spec_clone};
use crate::builder::{LoadError, both_sources_msg, load_development_definition, loaded_view, no_source_msg, relative_path_msg};
use crate::json::{Json, JsonV, json_clone, json_equal};
use crate::rpc::{ControlValue, ControlValueV, RuntimeModuleInfo};
use crate::runtime::{ReloadReport, RuntimeConnectionInfo};
use crate::text::{str_equal, string_of};

verus! {

// ---------------------------------------------------------------------------
// Config deltas

/// A null config and an empty object both mean "no config".
pub open spec fn empty_config(v: JsonV) -> bool {
    v is Null || (v matches JsonV::Object(m) && m.len() == 0)
}

/// Configs are equal, with null and `{}` treated alike.
pub open spec fn configs_equal_spec(a: JsonV, b: JsonV) -> bool {
    a == b || (empty_config(a) && empty_config(b))
}

/// The members of a config: none for null, the members of an object.
pub open spec fn members_of(v: JsonV) -> Option<Seq<(Seq<char>, JsonV)>> {
    match v {
        JsonV::Null => Some(Seq::empty()),
        JsonV::Object(m) => Some(m),
        _ => None,
    }
}

/// The value of the first member named `key`.
pub open spec fn member(m: Seq<(Seq<char>, JsonV)>, key: Seq<char>, k: int) -> Option<JsonV>
    decreases m.len() - k,
{
    if k < 0 || k >= m.len() {
        None
    } else if m[k].0 == key {
        Some(m[k].1)
    } else {
        member(m, key, k + 1)
    }
}

/// A scalar config value as a control value.
pub open spec fn scalar_spec(v: JsonV) -> Option<ControlValueV> {
    match v {
        JsonV::Number(n) => Some(ControlValueV::Number(n)),
        JsonV::Bool(b) => Some(ControlValueV::Bool(b)),
        JsonV::String(s) => Some(ControlValueV::String(s)),
        _ => None,
    }
}

/// Updates for the first `k` members of the new config: each member whose
/// value changed must be a scalar and a control the module exposes.
pub open spec fn updates_fold(
    prev: Seq<(Seq<char>, JsonV)>,
    new: Seq<(Seq<char>, JsonV)>,
    keys: Seq<Seq<char>>,
    k: nat,
) -> Option<Seq<(Seq<char>, ControlValueV)>>
    decreases k,
{
    if k == 0 || k > new.len() {
        Some(Seq::empty())
    } else {
        match updates_fold(prev, new, keys, (k - 1) as nat) {
            None => None,
            Some(acc) => {
                let (key, value) = new[k - 1];
                if member(prev, key, 0) == Some(value) {
                    Some(acc)
                } else {
                    match scalar_spec(value) {
                        None => None,
                        Some(cv) => if keys.contains(key) { Some(acc.push((key, cv))) } else { None },
                    }
                }
            },
        }
    }
}

/// A number, a boolean or a string.
pub open spec fn is_scalar(v: JsonV) -> bool {
    v is Number || v is Bool || v is String
}

/// `c` is the control value that the JSON value `v` sets.
pub open spec fn carries(v: JsonV, c: ControlValueV) -> bool {
    match (v, c) {
        (JsonV::Number(a), ControlValueV::Number(b)) => a == b,
        (JsonV::Bool(a), ControlValueV::Bool(b)) => a == b,
        (JsonV::String(a), ControlValueV::String(b)) => a == b,
        _ => false,
    }
}

/// Member `i` of the new config differs from the previous config.
pub open spec fn member_changed(prev: Seq<(Seq<char>, JsonV)>, new: Seq<(Seq<char>, JsonV)>, i: int) -> bool {
    member(prev, new[i].0, 0) != Some(new[i].1)
}

/// The changed members among the first `k` of the new config, in order.
pub open spec fn changed_members(prev: Seq<(Seq<char>, JsonV)>, new: Seq<(Seq<char>, JsonV)>, k: nat) -> Seq<(Seq<char>, JsonV)>
    decreases k,
{
    if k == 0 || k > new.len() {
        Seq::empty()
    } else {
        let rest = changed_members(prev, new, (k - 1) as nat);
        if member_changed(prev, new, k - 1) { rest.push(new[k - 1]) } else { rest }
    }
}

/// `u` has one update per changed member among the first `k`, in order,
/// each with that member's key and new value.
pub open spec fn updates_match(prev: Seq<(Seq<char>, JsonV)>, new: Seq<(Seq<char>, JsonV)>, k: nat, u: Seq<(Seq<char>, ControlValueV)>) -> bool {
    let c = changed_members(prev, new, k);
    &&& u.len() == c.len()
    &&& forall|j: int| 0 <= j < u.len() ==> (#[trigger] u[j]).0 == c[j].0 && carries(c[j].1, u[j].1)
}

/// When every member the new config changes is a control the module
/// exposes and takes a number, a boolean or a string, the change is a list
/// of control updates: one per changed member, in order, each carrying that
/// member's key and new value, and none for a member left as it was.
pub proof fn lemma_scalar_changes_become_updates(
    prev: Seq<(Seq<char>, JsonV)>,
    new: Seq<(Seq<char>, JsonV)>,
    keys: Seq<Seq<char>>,
    k: nat,
)
    requires
        k <= new.len(),
        forall|i: int| 0 <= i < k && #[trigger] member_changed(prev, new, i)
            ==> keys.contains(new[i].0) && is_scalar(new[i].1),
    ensures
        updates_fold(prev, new, keys, k) is Some,
        updates_match(prev, new, k, updates_fold(prev, new, keys, k)->Some_0),
    decreases k,
{
    if k > 0 {
        lemma_scalar_changes_become_updates(prev, new, keys, (k - 1) as nat);
        let acc = updates_fold(prev, new, keys, (k - 1) as nat)->Some_0;
        assert(updates_match(prev, new, (k - 1) as nat, acc));
        let (key, value) = new[k - 1];
        if member(prev, key, 0) == Some(value) {
            assert(!member_changed(prev, new, k - 1));
            assert(updates_fold(prev, new, keys, k) == Some(acc));
            lemma_updates_match_same(prev, new, k, acc);
        } else {
            assert(member_changed(prev, new, k - 1));
            assert(keys.contains(key) && is_scalar(value));
            let cv = scalar_spec(value)->Some_0;
            assert(updates_fold(prev, new, keys, k) == Some(acc.push((key, cv))));
            assert(carries(value, cv));
            lemma_updates_match_push(prev, new, k, acc, cv);
        }
    } else {
        assert(updates_fold(prev, new, keys, k) == Some(Seq::<(Seq<char>, ControlValueV)>::empty()));
    }
}

proof fn lemma_updates_match_same(prev: Seq<(Seq<char>, JsonV)>, new: Seq<(Seq<char>, JsonV)>, k: nat, acc: Seq<(Seq<char>, ControlValueV)>)
    requires
        0 < k <= new.len(),
        updates_match(prev, new, (k - 1) as nat, acc),
        !member_changed(prev, new, k - 1),
    ensures
        updates_match(prev, new, k, acc),
{
    assert(changed_members(prev, new, k) == changed_members(prev, new, (k - 1) as nat));
}

proof fn lemma_updates_match_push(
    prev: Seq<(Seq<char>, JsonV)>,
    new: Seq<(Seq<char>, JsonV)>,
    k: nat,
    acc: Seq<(Seq<char>, ControlValueV)>,
    cv: ControlValueV,
)
    requires
        0 < k <= new.len(),
        updates_match(prev, new, (k - 1) as nat, acc),
        member_changed(prev, new, k - 1),
        carries(new[k - 1].1, cv),
    ensures
        updates_match(prev, new, k, acc.push((new[k - 1].0, cv))),
{
    let u = acc.push((new[k - 1].0, cv));
    let c0 = changed_members(prev, new, (k - 1) as nat);
    let c = changed_members(prev, new, k);
    assert(c == c0.push(new[k - 1]));
    assert forall|j: int| 0 <= j < u.len() implies (#[trigger] u[j]).0 == c[j].0 && carries(c[j].1, u[j].1) by {
        if j < acc.len() {
            assert(u[j] == acc[j]);
            assert(c[j] == c0[j]);
        }
    }
}

/// A running module that keeps its type (and whose type's definition did
/// not change), and whose new config keeps every previous key and changes
/// only controls it exposes to numbers, booleans or strings, is updated
/// live: it is not swapped, it stays among the unchanged modules with its
/// new config recorded, and one control update per changed member, carrying
/// the new value, is added to the plan.
pub proof fn lemma_kept_module_is_updated_live(
    plan: PlanModel,
    current: Seq<(Seq<char>, Seq<char>, JsonV)>,
    spec: ModuleSpecV,
    changed: Seq<Seq<char>>,
    controls: Seq<(Seq<char>, Seq<Seq<char>>)>,
    i: int,
    prev: Seq<(Seq<char>, JsonV)>,
    new: Seq<(Seq<char>, JsonV)>,
)
    requires
        find_info(current, spec.id, 0) == Some(i),
        current[i].1 == spec.module_type,
        !changed.contains(spec.module_type),
        !configs_equal_spec(current[i].2, spec.config),
        members_of(current[i].2) == Some(prev),
        members_of(spec.config) == Some(new),
        forall|k: int| 0 <= k < prev.len() ==> member(new, #[trigger] prev[k].0, 0) is Some,
        forall|n: int| 0 <= n < new.len() && #[trigger] member_changed(prev, new, n)
            ==> controls_for(controls, spec.id, 0).contains(new[n].0) && is_scalar(new[n].1),
    ensures
        ({
            let r = module_step(plan, current, spec, changed, controls);
            &&& r.swapped == plan.swapped
            &&& r.added == plan.added
            &&& r.unchanged == plan.unchanged.push(spec.id)
            &&& r.refreshed == plan.refreshed.push((spec.id, spec.config))
            &&& r.control_updates.len() == plan.control_updates.len() + changed_members(prev, new, new.len()).len()
            &&& r.control_updates.subrange(0, plan.control_updates.len() as int) == plan.control_updates
            &&& forall|j: int| 0 <= j < changed_members(prev, new, new.len()).len() ==> {
                let c = #[trigger] changed_members(prev, new, new.len())[j];
                let x = r.control_updates[plan.control_updates.len() + j];
                x.0 == spec.id && x.1 == c.0 && carries(c.1, x.2)
            }
        }),
{
    let keys = controls_for(controls, spec.id, 0);
    lemma_scalar_changes_become_updates(prev, new, keys, new.len());
    assert(!(exists|k: int| 0 <= k < prev.len() && member(new, #[trigger] prev[k].0, 0) is None));
    let u = updates_fold(prev, new, keys, new.len())->Some_0;
    assert(control_updates_spec(current[i].2, spec.config, keys) == Some(u));
    let r = module_step(plan, current, spec, changed, controls);
    let base = plan.control_updates.len();
    let c = changed_members(prev, new, new.len());
    assert(r.control_updates.subrange(0, base as int) =~= plan.control_updates);
    assert forall|j: int| 0 <= j < c.len() implies {
        let x = r.control_updates[base + j];
        x.0 == spec.id && x.1 == (#[trigger] c[j]).0 && carries(c[j].1, x.2)
    } by {
        assert(u[j].0 == c[j].0 && carries(c[j].1, u[j].1));
        assert(r.control_updates[base + j] == (spec.id, u[j].0, u[j].1));
    }
}

/// A config delta as control updates, or `None` when it cannot be one (a
/// config that is not an object, a removed key, a non-scalar value, or a key
/// that is not among the module's controls `keys`).
pub open spec fn control_updates_spec(prev: JsonV, new: JsonV, keys: Seq<Seq<char>>) -> Option<Seq<(Seq<char>, ControlValueV)>> {
    match (members_of(prev), members_of(new)) {
        (Some(p), Some(n)) => if exists|i: int| 0 <= i < p.len() && member(n, #[trigger] p[i].0, 0) is None {
            None
        } else {
            updates_fold(p, n, keys, n.len())
        },
        _ => None,
    }
}

/// Whether `v` is null or an empty object.
pub fn is_empty_config(v: &Json) -> (r: bool)
    ensures
        r == empty_config(v.view()),
{
    match v {
        Json::Null => true,
        Json::Object(m) => {
            proof {
                crate::json::lemma_members_view(m@);
            }
            m.len() == 0
        },
        _ => false,
    }
}

/// Whether two configs are equal, null and `{}` alike.
pub fn configs_equal(a: &Json, b: &Json) -> (r: bool)
    ensures
        r == configs_equal_spec(a.view(), b.view()),
{
    json_equal(a, b) || (is_empty_config(a) && is_empty_config(b))
}

fn member_of(m: &Vec<(String, Json)>, key: &String) -> (r: Option<usize>)
    ensures
        ({
            let mv = crate::json::members_view(m@);
            match member(mv, key@, 0) {
                Some(v) => r matches Some(i) && i < m@.len() && m@[i as int].1.view() == v,
                None => r is None,
            }
        }),
{
    let ghost mv = crate::json::members_view(m@);
    proof {
        crate::json::lemma_members_view(m@);
    }
    let mut i: usize = 0;
    while i < m.len()
        invariant
            i <= m@.len(),
            mv == crate::json::members_view(m@),
            mv.len() == m@.len(),
            forall|j: int| 0 <= j < m@.len() ==> #[trigger] mv[j] == (m@[j].0@, m@[j].1.view()),
            member(mv, key@, 0) == member(mv, key@, i as int),
        decreases m.len() - i,
    {
        if str_equal(m[i].0.as_str(), key.as_str()) {
            return Some(i);
        }
        i = i + 1;
    }
    None
}

/// A scalar JSON value as a control value; `None` for null, arrays and
/// objects.
pub fn scalar_control_value(v: &Json) -> (r: Option<ControlValue>)
    ensures
        match scalar_spec(v.view()) {
            Some(c) => r matches Some(x) && x.view() == c,
            None => r is None,
        },
{
    match v {
        Json::Number(n) => Some(ControlValue::Number(*n)),
        Json::Bool(b) => Some(ControlValue::Bool(*b)),
        Json::String(s) => Some(ControlValue::String(copy_string(s))),
        _ => None,
    }
}

fn contains_text(keys: &Vec<String>, key: &String) -> (r: bool)
    ensures
        r == crate::topology::names(keys@).contains(key@),
{
    let mut i: usize = 0;
    while i < keys.len()
        invariant
            i <= keys@.len(),
            forall|j: int| 0 <= j < i ==> keys@[j]@ != key@,
        decreases keys.len() - i,
    {
        if str_equal(keys[i].as_str(), key.as_str()) {
            proof {
                assert(crate::topology::names(keys@)[i as int] == key@);
            }
            return true;
        }
        i = i + 1;
    }
    false
}

pub open spec fn updates_view(v: Seq<(String, ControlValue)>) -> Seq<(Seq<char>, ControlValueV)> {
    Seq::new(v.len(), |i: int| (v[i].0@, v[i].1.view()))
}

/// Maps a config delta to control updates (see [`control_updates_spec`]).
pub fn control_updates_for(prev: &Json, new: &Json, keys: &Vec<String>) -> (r: Option<Vec<(String, ControlValue)>>)
    ensures
        match control_updates_spec(prev.view(), new.view(), crate::topology::names(keys@)) {
            Some(u) => r matches Some(x) && updates_view(x@) == u,
            None => r is None,
        },
{
    let empty: Vec<(String, Json)> = Vec::new();
    let p: &Vec<(String, Json)> = match prev {
        Json::Null => &empty,
        Json::Object(m) => m,
        _ => { return None; },
    };
    let n: &Vec<(String, Json)> = match new {
        Json::Null => &empty,
        Json::Object(m) => m,
        _ => { return None; },
    };
    let ghost pv = crate::json::members_view(p@);
    let ghost nv = crate::json::members_view(n@);
    proof {
        crate::json::lemma_members_view(p@);
        crate::json::lemma_members_view(n@);
        assert(crate::json::members_view(empty@) =~= Seq::<(Seq<char>, JsonV)>::empty());
        assert(members_of(prev.view()) == Some(pv));
        assert(members_of(new.view()) == Some(nv));
    }
    let mut i: usize = 0;
    while i < p.len()
        invariant
            i <= p@.len(),
            pv == crate::json::members_view(p@),
            nv == crate::json::members_view(n@),
            pv.len() == p@.len(),
            forall|j: int| 0 <= j < p@.len() ==> #[trigger] pv[j] == (p@[j].0@, p@[j].1.view()),
            forall|j: int| 0 <= j < i ==> member(nv, #[trigger] pv[j].0, 0) is Some,
            members_of(prev.view()) == Some(pv),
            members_of(new.view()) == Some(nv),
        decreases p.len() - i,
    {
        if member_of(n, &p[i].0).is_none() {
            proof {
                assert(member(nv, pv[i as int].0, 0) is None);
            }
            return None;
        }
        i = i + 1;
    }
    let mut out: Vec<(String, ControlValue)> = Vec::new();
    let mut k: usize = 0;
    proof {
        assert(updates_view(out@) =~= Seq::<(Seq<char>, ControlValueV)>::empty());
    }
    while k < n.len()
        invariant
            k <= n@.len(),
            pv == crate::json::members_view(p@),
            nv == crate::json::members_view(n@),
            nv.len() == n@.len(),
            forall|j: int| 0 <= j < n@.len() ==> #[trigger] nv[j] == (n@[j].0@, n@[j].1.view()),
            updates_fold(pv, nv, crate::topology::names(keys@), k as nat) == Some(updates_view(out@)),
            members_of(prev.view()) == Some(pv),
            members_of(new.view()) == Some(nv),
            forall|j: int| 0 <= j < pv.len() ==> member(nv, #[trigger] pv[j].0, 0) is Some,
            pv.len() == p@.len(),
            forall|j: int| 0 <= j < p@.len() ==> #[trigger] pv[j] == (p@[j].0@, p@[j].1.view()),
        decreases n.len() - k,
    {
        let (key, value) = (&n[k].0, &n[k].1);
        let same = match member_of(p, key) {
            Some(j) => json_equal(&p[j].1, value),
            None => false,
        };
        if !same {
            let cv = match scalar_control_value(value) {
                Some(c) => c,
                None => {
                    proof {
                        lemma_updates_none(pv, nv, crate::topology::names(keys@), (k + 1) as nat, nv.len());
                    }
                    return None;
                },
            };
            if !contains_text(keys, key) {
                proof {
                    lemma_updates_none(pv, nv, crate::topology::names(keys@), (k + 1) as nat, nv.len());
                }
                return None;
            }
            let ghost before = out@;
            out.push((copy_string(key), cv));
            proof {
                assert(updates_view(out@) =~= updates_view(before).push((key@, cv.view())));
            }
        }
        k = k + 1;
    }
    Some(out)
}

proof fn lemma_updates_none(prev: Seq<(Seq<char>, JsonV)>, new: Seq<(Seq<char>, JsonV)>, keys: Seq<Seq<char>>, k: nat, j: nat)
    requires
        k <= j <= new.len(),
        updates_fold(prev, new, keys, k) is None,
    ensures
        updates_fold(prev, new, keys, j) is None,
    decreases j - k,
{
    if k < j {
        lemma_updates_none(prev, new, keys, k, (j - 1) as nat);
    }
}

} // verus!

verus! {

// ---------------------------------------------------------------------------
// The reload plan

pub open spec fn conn_view(c: RuntimeConnectionInfo) -> (Seq<char>, Seq<char>, Seq<char>, Seq<char>) {
    (c.from@, c.from_port@, c.to@, c.to_port@)
}

pub open spec fn conns_view(v: Seq<RuntimeConnectionInfo>) -> Seq<(Seq<char>, Seq<char>, Seq<char>, Seq<char>)> {
    Seq::new(v.len(), |i: int| conn_view(v[i]))
}

pub open spec fn infos_view(v: Seq<RuntimeModuleInfo>) -> Seq<(Seq<char>, Seq<char>, JsonV)> {
    Seq::new(v.len(), |i: int| (v[i].id@, v[i].module_type@, v[i].config.view()))
}

/// Position of the running module `id`.
pub open spec fn find_info(current: Seq<(Seq<char>, Seq<char>, JsonV)>, id: Seq<char>, k: int) -> Option<int>
    decreases current.len() - k,
{
    if k < 0 || k >= current.len() {
        None
    } else if current[k].0 == id {
        Some(k)
    } else {
        find_info(current, id, k + 1)
    }
}

/// The control keys module `id` exposes.
pub open spec fn controls_for(controls: Seq<(Seq<char>, Seq<Seq<char>>)>, id: Seq<char>, k: int) -> Seq<Seq<char>>
    decreases controls.len() - k,
{
    if k < 0 || k >= controls.len() {
        Seq::empty()
    } else if controls[k].0 == id {
        controls[k].1
    } else {
        controls_for(controls, id, k + 1)
    }
}

/// The runtime mutations that turn the running graph into the new document.
pub struct PlanModel {
    pub added: Seq<ModuleSpecV>,
    pub removed: Seq<Seq<char>>,
    pub swapped: Seq<ModuleSpecV>,
    pub control_updates: Seq<(Seq<char>, Seq<char>, ControlValueV)>,
    pub refreshed: Seq<(Seq<char>, JsonV)>,
    pub removed_connections: Seq<(Seq<char>, Seq<char>, Seq<char>, Seq<char>)>,
    pub added_connections: Seq<(Seq<char>, Seq<char>, Seq<char>, Seq<char>)>,
    pub unchanged: Seq<Seq<char>>,
}

/// One module of the new document: new ids are added; a module whose type
/// or development definition changed is swapped; a config-only change is
/// applied as control updates when it can be, else swapped; the rest is
/// unchanged.
pub open spec fn module_step(
    plan: PlanModel,
    current: Seq<(Seq<char>, Seq<char>, JsonV)>,
    spec: ModuleSpecV,
    changed: Seq<Seq<char>>,
    controls: Seq<(Seq<char>, Seq<Seq<char>>)>,
) -> PlanModel {
    match find_info(current, spec.id, 0) {
        None => PlanModel { added: plan.added.push(spec), ..plan },
        Some(i) => {
            let info = current[i];
            if info.1 != spec.module_type || changed.contains(spec.module_type) {
                PlanModel { swapped: plan.swapped.push(spec), ..plan }
            } else if !configs_equal_spec(info.2, spec.config) {
                match control_updates_spec(info.2, spec.config, controls_for(controls, spec.id, 0)) {
                    Some(u) => PlanModel {
                        unchanged: plan.unchanged.push(spec.id),
                        refreshed: plan.refreshed.push((spec.id, spec.config)),
                        control_updates: plan.control_updates + Seq::new(u.len(), |j: int| (spec.id, u[j].0, u[j].1)),
                        ..plan
                    },
                    None => PlanModel { swapped: plan.swapped.push(spec), ..plan },
                }
            } else {
                PlanModel { unchanged: plan.unchanged.push(spec.id), ..plan }
            }
        },
    }
}

pub open spec fn empty_plan() -> PlanModel {
    PlanModel {
        added: Seq::empty(),
        removed: Seq::empty(),
        swapped: Seq::empty(),
        control_updates: Seq::empty(),
        refreshed: Seq::empty(),
        removed_connections: Seq::empty(),
        added_connections: Seq::empty(),
        unchanged: Seq::empty(),
    }
}

pub open spec fn modules_fold(
    current: Seq<(Seq<char>, Seq<char>, JsonV)>,
    specs: Seq<ModuleSpecV>,
    changed: Seq<Seq<char>>,
    controls: Seq<(Seq<char>, Seq<Seq<char>>)>,
    k: nat,
) -> PlanModel
    decreases k,
{
    if k == 0 || k > specs.len() {
        empty_plan()
    } else {
        module_step(modules_fold(current, specs, changed, controls, (k - 1) as nat), current, specs[k - 1], changed, controls)
    }
}

/// The running module ids, among the first `k`, that the new document drops.
pub open spec fn removed_ids(current: Seq<(Seq<char>, Seq<char>, JsonV)>, specs: Seq<ModuleSpecV>, k: nat) -> Seq<Seq<char>>
    decreases k,
{
    if k == 0 || k > current.len() {
        Seq::empty()
    } else {
        let rest = removed_ids(current, specs, (k - 1) as nat);
        let id = current[k - 1].0;
        if exists|j: int| 0 <= j < specs.len() && (#[trigger] specs[j]).id == id { rest } else { rest.push(id) }
    }
}

/// The new document's connections with both ports named, or the first one
/// missing a port.
pub open spec fn desired_fold(conns: Seq<crate::invention::ConnectionV>, k: nat) -> Result<Seq<(Seq<char>, Seq<char>, Seq<char>, Seq<char>)>, Seq<char>>
    decreases k,
{
    if k == 0 || k > conns.len() {
        Ok(Seq::empty())
    } else {
        match desired_fold(conns, (k - 1) as nat) {
            Err(m) => Err(m),
            Ok(acc) => {
                let c = conns[k - 1];
                match c.from_port {
                    None => Err("Missing from_port in connection from "@ + c.from),
                    Some(fp) => match c.to_port {
                        None => Err("Missing to_port in connection to "@ + c.to),
                        Some(tp) => Ok(acc.push((c.from, fp, c.to, tp))),
                    },
                }
            },
        }
    }
}

/// Running connections, among the first `k`, that are not wanted and do not
/// touch a removed module (removing a module drops its connections).
pub open spec fn drop_fold(
    current: Seq<(Seq<char>, Seq<char>, Seq<char>, Seq<char>)>,
    desired: Seq<(Seq<char>, Seq<char>, Seq<char>, Seq<char>)>,
    removed: Seq<Seq<char>>,
    k: nat,
) -> Seq<(Seq<char>, Seq<char>, Seq<char>, Seq<char>)>
    decreases k,
{
    if k == 0 || k > current.len() {
        Seq::empty()
    } else {
        let rest = drop_fold(current, desired, removed, (k - 1) as nat);
        let c = current[k - 1];
        if !desired.contains(c) && !removed.contains(c.0) && !removed.contains(c.2) { rest.push(c) } else { rest }
    }
}

/// Wanted connections, among the first `k`, that are not running yet.
pub open spec fn add_fold(
    desired: Seq<(Seq<char>, Seq<char>, Seq<char>, Seq<char>)>,
    current: Seq<(Seq<char>, Seq<char>, Seq<char>, Seq<char>)>,
    k: nat,
) -> Seq<(Seq<char>, Seq<char>, Seq<char>, Seq<char>)>
    decreases k,
{
    if k == 0 || k > desired.len() {
        Seq::empty()
    } else {
        let rest = add_fold(desired, current, (k - 1) as nat);
        let c = desired[k - 1];
        if !current.contains(c) { rest.push(c) } else { rest }
    }
}

/// The diff of the new document against the running graph: per module (see
/// [`module_step`]), the ids the document drops, the connections to remove
/// and to add; an error when a connection of the document lacks a port.
pub open spec fn plan_spec(
    current: Seq<(Seq<char>, Seq<char>, JsonV)>,
    conns: Seq<(Seq<char>, Seq<char>, Seq<char>, Seq<char>)>,
    new: InventionV,
    changed: Seq<Seq<char>>,
    controls: Seq<(Seq<char>, Seq<Seq<char>>)>,
) -> Result<PlanModel, Seq<char>> {
    let p = modules_fold(current, new.modules, changed, controls, new.modules.len());
    let removed = removed_ids(current, new.modules, current.len());
    match desired_fold(new.connections, new.connections.len()) {
        Err(m) => Err(m),
        Ok(desired) => Ok(PlanModel {
            removed,
            removed_connections: drop_fold(conns, desired, removed, conns.len()),
            added_connections: add_fold(desired, conns, desired.len()),
            ..p
        }),
    }
}

/// The runtime mutations for a reload.
pub struct ReloadPlan {
    pub added: Vec<ModuleSpec>,
    pub removed: Vec<String>,
    pub swapped: Vec<ModuleSpec>,
    pub control_updates: Vec<(String, String, ControlValue)>,
    /// New configs of modules whose delta lands as control updates.
    pub refreshed_configs: Vec<(String, Json)>,
    pub removed_connections: Vec<RuntimeConnectionInfo>,
    pub added_connections: Vec<RuntimeConnectionInfo>,
    pub unchanged: Vec<String>,
}

pub open spec fn specs_view(v: Seq<ModuleSpec>) -> Seq<ModuleSpecV> {
    Seq::new(v.len(), |i: int| v[i].view())
}

impl ReloadPlan {
    pub open spec fn view(&self) -> PlanModel {
        PlanModel {
            added: specs_view(self.added@),
            removed: crate::topology::names(self.removed@),
            swapped: specs_view(self.swapped@),
            control_updates: Seq::new(self.control_updates@.len(), |i: int| (
                self.control_updates@[i].0@, self.control_updates@[i].1@, self.control_updates@[i].2.view())),
            refreshed: Seq::new(self.refreshed_configs@.len(), |i: int| (
                self.refreshed_configs@[i].0@, self.refreshed_configs@[i].1.view())),
            removed_connections: conns_view(self.removed_connections@),
            added_connections: conns_view(self.added_connections@),
            unchanged: crate::topology::names(self.unchanged@),
        }
    }
}

// ---------------------------------------------------------------------------
// Reloading the running document

/// The ids of the running modules, in order.
pub open spec fn info_ids(current: Seq<(Seq<char>, Seq<char>, JsonV)>) -> Seq<Seq<char>> {
    Seq::new(current.len(), |i: int| current[i].0)
}

/// The document describes exactly the running graph: the same modules in
/// the same order, with the same types and configs, and as connections the
/// running ones, each with both ports named.
pub open spec fn describes_running(
    current: Seq<(Seq<char>, Seq<char>, JsonV)>,
    conns: Seq<(Seq<char>, Seq<char>, Seq<char>, Seq<char>)>,
    new: InventionV,
) -> bool {
    &&& new.modules.len() == current.len()
    &&& forall|i: int| 0 <= i < current.len()
        ==> (new.modules[i].id, new.modules[i].module_type, new.modules[i].config) == #[trigger] current[i]
    &&& new.connections.len() == conns.len()
    &&& forall|i: int| 0 <= i < conns.len() ==> new.connections[i] == (crate::invention::ConnectionV {
        from: (#[trigger] conns[i]).0,
        to: conns[i].2,
        from_port: Some(conns[i].1),
        to_port: Some(conns[i].3),
    })
}

proof fn lemma_find_info_at(current: Seq<(Seq<char>, Seq<char>, JsonV)>, i: int, k: int)
    requires
        0 <= k <= i < current.len(),
        forall|a: int, b: int| 0 <= a < b < current.len() ==> current[a].0 != current[b].0,
    ensures
        find_info(current, current[i].0, k) == Some(i),
    decreases i - k,
{
    if k < i {
        lemma_find_info_at(current, i, k + 1);
    }
}

proof fn lemma_modules_fold_unchanged(
    current: Seq<(Seq<char>, Seq<char>, JsonV)>,
    conns: Seq<(Seq<char>, Seq<char>, Seq<char>, Seq<char>)>,
    new: InventionV,
    changed: Seq<Seq<char>>,
    controls: Seq<(Seq<char>, Seq<Seq<char>>)>,
    k: nat,
)
    requires
        describes_running(current, conns, new),
        k <= current.len(),
        forall|a: int, b: int| 0 <= a < b < current.len() ==> current[a].0 != current[b].0,
        forall|i: int| 0 <= i < current.len() ==> !changed.contains(#[trigger] current[i].1),
    ensures
        modules_fold(current, new.modules, changed, controls, k) == (PlanModel {
            unchanged: info_ids(current).take(k as int),
            ..empty_plan()
        }),
    decreases k,
{
    if k > 0 {
        lemma_modules_fold_unchanged(current, conns, new, changed, controls, (k - 1) as nat);
        let i = k - 1;
        assert(current[i] == (new.modules[i].id, new.modules[i].module_type, new.modules[i].config));
        lemma_find_info_at(current, i, 0);
        assert(!changed.contains(current[i].1));
        assert(info_ids(current).take(i).push(current[i].0) =~= info_ids(current).take(k as int));
    } else {
        assert(info_ids(current).take(0) =~= Seq::<Seq<char>>::empty());
    }
}

proof fn lemma_removed_ids_none(
    current: Seq<(Seq<char>, Seq<char>, JsonV)>,
    conns: Seq<(Seq<char>, Seq<char>, Seq<char>, Seq<char>)>,
    new: InventionV,
    k: nat,
)
    requires
        describes_running(current, conns, new),
        k <= current.len(),
    ensures
        removed_ids(current, new.modules, k) == Seq::<Seq<char>>::empty(),
    decreases k,
{
    if k > 0 {
        lemma_removed_ids_none(current, conns, new, (k - 1) as nat);
        let i = k - 1;
        assert(current[i] == (new.modules[i].id, new.modules[i].module_type, new.modules[i].config));
        assert(new.modules[i].id == current[i].0);
    }
}

proof fn lemma_desired_running(
    current: Seq<(Seq<char>, Seq<char>, JsonV)>,
    conns: Seq<(Seq<char>, Seq<char>, Seq<char>, Seq<char>)>,
    new: InventionV,
    k: nat,
)
    requires
        describes_running(current, conns, new),
        k <= conns.len(),
    ensures
        desired_fold(new.connections, k) == Ok::<_, Seq<char>>(conns.take(k as int)),
    decreases k,
{
    if k > 0 {
        lemma_desired_running(current, conns, new, (k - 1) as nat);
        let i = k - 1;
        assert(new.connections[i] == (crate::invention::ConnectionV {
            from: conns[i].0,
            to: conns[i].2,
            from_port: Some(conns[i].1),
            to_port: Some(conns[i].3),
        }));
        assert(conns.take(i).push((conns[i].0, conns[i].1, conns[i].2, conns[i].3)) =~= conns.take(k as int));
    } else {
        assert(conns.take(0) =~= Seq::<(Seq<char>, Seq<char>, Seq<char>, Seq<char>)>::empty());
    }
}

proof fn lemma_same_connections_stay(conns: Seq<(Seq<char>, Seq<char>, Seq<char>, Seq<char>)>, removed: Seq<Seq<char>>, k: nat)
    requires
        k <= conns.len(),
    ensures
        drop_fold(conns, conns, removed, k) == Seq::<(Seq<char>, Seq<char>, Seq<char>, Seq<char>)>::empty(),
        add_fold(conns, conns, k) == Seq::<(Seq<char>, Seq<char>, Seq<char>, Seq<char>)>::empty(),
    decreases k,
{
    if k > 0 {
        lemma_same_connections_stay(conns, removed, (k - 1) as nat);
        assert(conns.contains(conns[k - 1]));
    }
}

/// Reloading the document that describes the running graph plans nothing
/// when no development definition changed: no module is added, removed or
/// swapped, no control is written, no connection changes, and every module
/// stays as it runs, keeping its state.
pub proof fn lemma_reload_of_running_document_is_a_no_op(
    current: Seq<(Seq<char>, Seq<char>, JsonV)>,
    conns: Seq<(Seq<char>, Seq<char>, Seq<char>, Seq<char>)>,
    new: InventionV,
    changed: Seq<Seq<char>>,
    controls: Seq<(Seq<char>, Seq<Seq<char>>)>,
)
    requires
        describes_running(current, conns, new),
        forall|a: int, b: int| 0 <= a < b < current.len() ==> current[a].0 != current[b].0,
        forall|i: int| 0 <= i < current.len() ==> !changed.contains(#[trigger] current[i].1),
    ensures
        plan_spec(current, conns, new, changed, controls) matches Ok(p) && {
            &&& p.added.len() == 0
            &&& p.removed.len() == 0
            &&& p.swapped.len() == 0
            &&& p.control_updates.len() == 0
            &&& p.refreshed.len() == 0
            &&& p.removed_connections.len() == 0
            &&& p.added_connections.len() == 0
            &&& p.unchanged == info_ids(current)
        },
{
    lemma_modules_fold_unchanged(current, conns, new, changed, controls, current.len());
    lemma_removed_ids_none(current, conns, new, current.len());
    lemma_desired_running(current, conns, new, conns.len());
    assert(conns.take(conns.len() as int) =~= conns);
    assert(info_ids(current).take(current.len() as int) =~= info_ids(current));
    lemma_same_connections_stay(conns, Seq::empty(), conns.len());
}

// ---------------------------------------------------------------------------
// Recording live config updates

/// The running modules after module `id` takes `config` (nothing changes
/// when it is not running).
pub open spec fn refresh_info(s: Seq<(Seq<char>, Seq<char>, JsonV)>, id: Seq<char>, config: JsonV) -> Seq<(Seq<char>, Seq<char>, JsonV)> {
    match find_info(s, id, 0) {
        Some(i) => s.update(i, (s[i].0, s[i].1, config)),
        None => s,
    }
}

/// The running modules after the first `k` refreshed configs are recorded.
pub open spec fn refreshed_modules(s: Seq<(Seq<char>, Seq<char>, JsonV)>, r: Seq<(Seq<char>, JsonV)>, k: nat) -> Seq<(Seq<char>, Seq<char>, JsonV)>
    decreases k,
{
    if k == 0 || k > r.len() {
        s
    } else {
        refresh_info(refreshed_modules(s, r, (k - 1) as nat), r[k - 1].0, r[k - 1].1)
    }
}

/// Ids are unique.
pub open spec fn unique_ids(s: Seq<(Seq<char>, Seq<char>, JsonV)>) -> bool {
    forall|a: int, b: int| 0 <= a < b < s.len() ==> s[a].0 != s[b].0
}

/// Module ids of a document are unique.
pub open spec fn unique_spec_ids(s: Seq<ModuleSpecV>) -> bool {
    forall|a: int, b: int| 0 <= a < b < s.len() ==> s[a].id != s[b].id
}

proof fn lemma_find_info_some(s: Seq<(Seq<char>, Seq<char>, JsonV)>, id: Seq<char>, k: int)
    requires
        0 <= k,
    ensures
        find_info(s, id, k) matches Some(i) ==> k <= i < s.len() && s[i].0 == id,
        find_info(s, id, k) is None ==> forall|i: int| k <= i < s.len() ==> s[i].0 != id,
    decreases s.len() - k,
{
    if k < s.len() && s[k].0 != id {
        lemma_find_info_some(s, id, k + 1);
    }
}

/// Finding by id only reads the ids.
proof fn lemma_find_info_same_ids(s: Seq<(Seq<char>, Seq<char>, JsonV)>, t: Seq<(Seq<char>, Seq<char>, JsonV)>, id: Seq<char>, k: int)
    requires
        s.len() == t.len(),
        forall|i: int| 0 <= i < s.len() ==> s[i].0 == t[i].0,
    ensures
        find_info(s, id, k) == find_info(t, id, k),
    decreases s.len() - k,
{
    if 0 <= k < s.len() && s[k].0 != id {
        lemma_find_info_same_ids(s, t, id, k + 1);
    }
}

/// Recording configs keeps every module's id and type.
proof fn lemma_refreshed_shape(s: Seq<(Seq<char>, Seq<char>, JsonV)>, r: Seq<(Seq<char>, JsonV)>, k: nat)
    requires
        k <= r.len(),
    ensures
        refreshed_modules(s, r, k).len() == s.len(),
        forall|a: int| 0 <= a < s.len() ==> (#[trigger] refreshed_modules(s, r, k)[a]).0 == s[a].0
            && refreshed_modules(s, r, k)[a].1 == s[a].1,
    decreases k,
{
    if k > 0 {
        lemma_refreshed_shape(s, r, (k - 1) as nat);
        let prev = refreshed_modules(s, r, (k - 1) as nat);
        lemma_find_info_some(prev, r[k - 1].0, 0);
    }
}

/// The config of the module at `i` after recording is the config recorded
/// for its id, when one is (all recorded configs for that id being `c`).
proof fn lemma_refreshed_config(s: Seq<(Seq<char>, Seq<char>, JsonV)>, r: Seq<(Seq<char>, JsonV)>, k: nat, i: int, c: JsonV)
    requires
        k <= r.len(),
        unique_ids(s),
        0 <= i < s.len(),
        forall|m: int| 0 <= m < r.len() && (#[trigger] r[m]).0 == s[i].0 ==> r[m].1 == c,
    ensures
        refreshed_modules(s, r, k)[i].2 == (if exists|m: int| 0 <= m < k && (#[trigger] r[m]).0 == s[i].0 { c } else { s[i].2 }),
    decreases k,
{
    if k > 0 {
        lemma_refreshed_config(s, r, (k - 1) as nat, i, c);
        lemma_refreshed_shape(s, r, (k - 1) as nat);
        let prev = refreshed_modules(s, r, (k - 1) as nat);
        let id = r[k - 1].0;
        lemma_find_info_same_ids(prev, s, id, 0);
        lemma_find_info_some(s, id, 0);
        let was = exists|m: int| 0 <= m < k - 1 && (#[trigger] r[m]).0 == s[i].0;
        let now = exists|m: int| 0 <= m < k && (#[trigger] r[m]).0 == s[i].0;
        if id == s[i].0 {
            lemma_find_info_at(s, i, 0);
            assert(now) by {
                assert(r[k - 1].0 == s[i].0);
            }
        } else {
            assert(now == was) by {
                if now {
                    let m = choose|m: int| 0 <= m < k && (#[trigger] r[m]).0 == s[i].0;
                    assert(m != k - 1);
                    assert(0 <= m < k - 1);
                }
                if was {
                    let m = choose|m: int| 0 <= m < k - 1 && (#[trigger] r[m]).0 == s[i].0;
                    assert(0 <= m < k);
                }
            }
            if let Some(j) = find_info(s, id, 0) {
                assert(j != i);
            }
        }
    }
}

/// A document module that takes the live-update branch of a plan: it
/// runs, with the same type, its type's definition did not change, and
/// its config changed only in control values.
pub open spec fn live_updated(
    current: Seq<(Seq<char>, Seq<char>, JsonV)>,
    spec: ModuleSpecV,
    changed: Seq<Seq<char>>,
    controls: Seq<(Seq<char>, Seq<Seq<char>>)>,
) -> bool {
    match find_info(current, spec.id, 0) {
        Some(i) => current[i].1 == spec.module_type && !changed.contains(spec.module_type)
            && !configs_equal_spec(current[i].2, spec.config)
            && control_updates_spec(current[i].2, spec.config, controls_for(controls, spec.id, 0)) is Some,
        None => false,
    }
}

/// A document module left as it runs by a plan.
pub open spec fn kept(
    current: Seq<(Seq<char>, Seq<char>, JsonV)>,
    spec: ModuleSpecV,
    changed: Seq<Seq<char>>,
) -> bool {
    match find_info(current, spec.id, 0) {
        Some(i) => current[i].1 == spec.module_type && !changed.contains(spec.module_type)
            && configs_equal_spec(current[i].2, spec.config),
        None => false,
    }
}

/// The refreshed configs as plain values.
pub open spec fn refreshed_view(v: Seq<(String, Json)>) -> Seq<(Seq<char>, JsonV)> {
    Seq::new(v.len(), |i: int| (v[i].0@, v[i].1.view()))
}

impl crate::state::RuntimeState {
    /// Records the configs a reload applied as live control updates, so the
    /// running modules describe what the document now says (see
    /// [`refreshed_modules`]).
    pub fn refresh_configs(&mut self, refreshed: &Vec<(String, Json)>)
        ensures
            final(self).view().modules == refreshed_modules(old(self).view().modules, refreshed_view(refreshed@), refreshed@.len()),
            final(self).connections == old(self).connections,
            final(self).document == old(self).document,
            final(self).sample_rate == old(self).sample_rate,
            final(self).running == old(self).running,
    {
        let ghost rv = refreshed_view(refreshed@);
        let mut k: usize = 0;
        while k < refreshed.len()
            invariant
                k <= refreshed@.len(),
                rv == refreshed_view(refreshed@),
                self.view().modules == refreshed_modules(old(self).view().modules, rv, k as nat),
                self.connections == old(self).connections,
                self.document == old(self).document,
                self.sample_rate == old(self).sample_rate,
                self.running == old(self).running,
            decreases refreshed.len() - k,
        {
            let ghost before = self.view().modules;
            match find_info_exec(&self.modules, &refreshed[k].0) {
                Some(i) => {
                    let info = RuntimeModuleInfo {
                        id: copy_string(&self.modules[i].id),
                        module_type: copy_string(&self.modules[i].module_type),
                        config: json_clone(&refreshed[k].1),
                    };
                    self.modules.set(i, info);
                    proof {
                        assert(infos_view(self.modules@) =~= refresh_info(before, rv[k as int].0, rv[k as int].1));
                    }
                },
                None => {},
            }
            k = k + 1;
        }
    }
}

/// A refreshed config is that of one of the first `k` document modules,
/// a live-updated one.
pub open spec fn from_live_update(
    current: Seq<(Seq<char>, Seq<char>, JsonV)>,
    specs: Seq<ModuleSpecV>,
    changed: Seq<Seq<char>>,
    controls: Seq<(Seq<char>, Seq<Seq<char>>)>,
    k: int,
    entry: (Seq<char>, JsonV),
) -> bool {
    exists|j: int| 0 <= j < k && live_updated(current, #[trigger] specs[j], changed, controls) && entry == (specs[j].id, specs[j].config)
}

/// One document module of a plan that adds and swaps nothing: it is kept
/// or live-updated, it joins the unchanged modules, and its config is
/// refreshed exactly when it is live-updated.
proof fn lemma_step_without_swaps(
    prev: PlanModel,
    current: Seq<(Seq<char>, Seq<char>, JsonV)>,
    spec: ModuleSpecV,
    changed: Seq<Seq<char>>,
    controls: Seq<(Seq<char>, Seq<Seq<char>>)>,
)
    requires
        module_step(prev, current, spec, changed, controls).added.len() == 0,
        module_step(prev, current, spec, changed, controls).swapped.len() == 0,
    ensures
        ({
            let p = module_step(prev, current, spec, changed, controls);
            &&& prev.added.len() == 0 && prev.swapped.len() == 0
            &&& kept(current, spec, changed) || live_updated(current, spec, changed, controls)
            &&& p.unchanged == prev.unchanged.push(spec.id)
            &&& p.refreshed == (if live_updated(current, spec, changed, controls) {
                prev.refreshed.push((spec.id, spec.config))
            } else {
                prev.refreshed
            })
        }),
{
}

/// The first `k` document modules of a plan that adds and swaps nothing:
/// each is kept or live-updated, all are unchanged, and the refreshed
/// configs are exactly those of the live-updated ones.
proof fn lemma_plan_without_swaps(
    current: Seq<(Seq<char>, Seq<char>, JsonV)>,
    specs: Seq<ModuleSpecV>,
    changed: Seq<Seq<char>>,
    controls: Seq<(Seq<char>, Seq<Seq<char>>)>,
    k: nat,
)
    requires
        k <= specs.len(),
        modules_fold(current, specs, changed, controls, k).added.len() == 0,
        modules_fold(current, specs, changed, controls, k).swapped.len() == 0,
    ensures
        ({
            let p = modules_fold(current, specs, changed, controls, k);
            &&& p.unchanged == Seq::new(k as nat, |j: int| specs[j].id)
            &&& forall|j: int| 0 <= j < k ==> kept(current, #[trigger] specs[j], changed) || live_updated(current, specs[j], changed, controls)
            &&& forall|m: int| 0 <= m < p.refreshed.len() ==> #[trigger] from_live_update(current, specs, changed, controls, k as int, p.refreshed[m])
            &&& forall|j: int| 0 <= j < k && live_updated(current, #[trigger] specs[j], changed, controls)
                ==> exists|m: int| 0 <= m < p.refreshed.len() && p.refreshed[m] == (specs[j].id, specs[j].config)
        }),
    decreases k,
{
    if k > 0 {
        let prev = modules_fold(current, specs, changed, controls, (k - 1) as nat);
        let p = modules_fold(current, specs, changed, controls, k);
        let spec = specs[k - 1];
        assert(p == module_step(prev, current, spec, changed, controls));
        lemma_step_without_swaps(prev, current, spec, changed, controls);
        lemma_plan_without_swaps(current, specs, changed, controls, (k - 1) as nat);
        assert forall|j: int| 0 <= j < k implies kept(current, #[trigger] specs[j], changed) || live_updated(current, specs[j], changed, controls) by {
            if j < k - 1 {
                assert(kept(current, specs[j], changed) || live_updated(current, specs[j], changed, controls));
            }
        }
        assert(p.unchanged =~= Seq::new(k as nat, |j: int| specs[j].id));
        assert forall|m: int| 0 <= m < p.refreshed.len() implies #[trigger] from_live_update(current, specs, changed, controls, k as int, p.refreshed[m]) by {
            if m < prev.refreshed.len() {
                assert(p.refreshed[m] == prev.refreshed[m]);
                assert(from_live_update(current, specs, changed, controls, k - 1, prev.refreshed[m]));
                let j = choose|j: int| 0 <= j < k - 1 && live_updated(current, #[trigger] specs[j], changed, controls)
                    && prev.refreshed[m] == (specs[j].id, specs[j].config);
                assert(0 <= j < k);
            } else {
                assert(live_updated(current, specs[k - 1], changed, controls));
            }
        }
        assert forall|j: int| 0 <= j < k && live_updated(current, #[trigger] specs[j], changed, controls)
            implies exists|m: int| 0 <= m < p.refreshed.len() && p.refreshed[m] == (specs[j].id, specs[j].config) by {
            if j < k - 1 {
                let m = choose|m: int| 0 <= m < prev.refreshed.len() && prev.refreshed[m] == (specs[j].id, specs[j].config);
                assert(p.refreshed[m] == prev.refreshed[m]);
            } else {
                assert(p.refreshed[prev.refreshed.len() as int] == (spec.id, spec.config));
            }
        }
    } else {
        assert(Seq::new(0, |j: int| specs[j].id) =~= Seq::<Seq<char>>::empty());
        assert(modules_fold(current, specs, changed, controls, k).refreshed.len() == 0);
    }
}

/// After a reload whose only changes are live config updates, recording
/// the refreshed configs makes the next reload of the same document find
/// nothing to do: the applied control updates are not detected again, and
/// every module stays unchanged.
pub proof fn lemma_applied_control_updates_are_not_redetected(
    current: Seq<(Seq<char>, Seq<char>, JsonV)>,
    conns: Seq<(Seq<char>, Seq<char>, Seq<char>, Seq<char>)>,
    new: InventionV,
    changed: Seq<Seq<char>>,
    controls: Seq<(Seq<char>, Seq<Seq<char>>)>,
)
    requires
        unique_ids(current),
        unique_spec_ids(new.modules),
        plan_spec(current, conns, new, changed, controls) matches Ok(p)
            && p.added.len() == 0 && p.removed.len() == 0 && p.swapped.len() == 0,
    ensures
        ({
            let p = plan_spec(current, conns, new, changed, controls)->Ok_0;
            let after = refreshed_modules(current, p.refreshed, p.refreshed.len());
            plan_spec(after, conns, new, changed, controls) matches Ok(q) && {
                &&& q.added.len() == 0
                &&& q.removed.len() == 0
                &&& q.swapped.len() == 0
                &&& q.control_updates.len() == 0
                &&& q.refreshed.len() == 0
                &&& q.unchanged == p.unchanged
            }
        }),
{
    let specs = new.modules;
    let n = specs.len();
    let p = plan_spec(current, conns, new, changed, controls)->Ok_0;
    let r = p.refreshed;
    let after = refreshed_modules(current, r, r.len());
    lemma_plan_without_swaps(current, specs, changed, controls, n);
    // Every running module keeps its id and type.
    lemma_refreshed_shape(current, r, r.len());
    // Each document module is found where it was, and kept.
    assert forall|j: int| 0 <= j < n implies kept(after, #[trigger] specs[j], changed) by {
        let spec = specs[j];
        lemma_find_info_some(current, spec.id, 0);
        let i = find_info(current, spec.id, 0)->Some_0;
        assert(kept(current, spec, changed) || live_updated(current, spec, changed, controls));
        let c = if live_updated(current, spec, changed, controls) { spec.config } else { current[i].2 };
        assert forall|m: int| 0 <= m < r.len() && (#[trigger] r[m]).0 == current[i].0 implies r[m].1 == c by {
            assert(from_live_update(current, specs, changed, controls, n as int, r[m]));
            let j2 = choose|j2: int| 0 <= j2 < n && live_updated(current, #[trigger] specs[j2], changed, controls)
                && r[m] == (specs[j2].id, specs[j2].config);
            assert(j2 == j);
        }
        lemma_refreshed_config(current, r, r.len(), i, c);
        lemma_find_info_same_ids(after, current, spec.id, 0);
        if live_updated(current, spec, changed, controls) {
            let m = choose|m: int| 0 <= m < r.len() && r[m] == (spec.id, spec.config);
            assert(r[m].0 == current[i].0);
        } else {
            assert(!(exists|m: int| 0 <= m < r.len() && (#[trigger] r[m]).0 == current[i].0)) by {
                if exists|m: int| 0 <= m < r.len() && (#[trigger] r[m]).0 == current[i].0 {
                    let m = choose|m: int| 0 <= m < r.len() && (#[trigger] r[m]).0 == current[i].0;
                    assert(from_live_update(current, specs, changed, controls, n as int, r[m]));
                    let j2 = choose|j2: int| 0 <= j2 < n && live_updated(current, #[trigger] specs[j2], changed, controls)
                        && r[m] == (specs[j2].id, specs[j2].config);
                    assert(j2 == j);
                }
            }
        }
    }
    lemma_modules_fold_kept(after, specs, changed, controls, n);
    // No running module is dropped: the first plan dropped none.
    lemma_removed_ids_kept(current, after, specs, current.len());
}

/// When every document module is kept, the plan's modules are all
/// unchanged.
proof fn lemma_modules_fold_kept(
    current: Seq<(Seq<char>, Seq<char>, JsonV)>,
    specs: Seq<ModuleSpecV>,
    changed: Seq<Seq<char>>,
    controls: Seq<(Seq<char>, Seq<Seq<char>>)>,
    k: nat,
)
    requires
        k <= specs.len(),
        forall|j: int| 0 <= j < specs.len() ==> kept(current, #[trigger] specs[j], changed),
    ensures
        modules_fold(current, specs, changed, controls, k) == (PlanModel {
            unchanged: Seq::new(k as nat, |j: int| specs[j].id),
            ..empty_plan()
        }),
    decreases k,
{
    if k > 0 {
        lemma_modules_fold_kept(current, specs, changed, controls, (k - 1) as nat);
        assert(kept(current, specs[k - 1], changed));
        assert(Seq::new((k - 1) as nat, |j: int| specs[j].id).push(specs[k - 1].id) =~= Seq::new(k as nat, |j: int| specs[j].id));
    } else {
        assert(Seq::new(0, |j: int| specs[j].id) =~= Seq::<Seq<char>>::empty());
    }
}

/// Recording configs drops no running module from the plan.
proof fn lemma_removed_ids_kept(
    current: Seq<(Seq<char>, Seq<char>, JsonV)>,
    after: Seq<(Seq<char>, Seq<char>, JsonV)>,
    specs: Seq<ModuleSpecV>,
    k: nat,
)
    requires
        k <= current.len(),
        after.len() == current.len(),
        forall|a: int| 0 <= a < current.len() ==> (#[trigger] after[a]).0 == current[a].0,
        removed_ids(current, specs, current.len()).len() == 0,
    ensures
        removed_ids(after, specs, k) == removed_ids(current, specs, k),
        removed_ids(current, specs, k).len() == 0,
    decreases k,
{
    if k > 0 {
        lemma_removed_ids_grow(current, specs, k, current.len());
        lemma_removed_ids_kept(current, after, specs, (k - 1) as nat);
        assert(after[k - 1].0 == current[k - 1].0);
    }
}

proof fn lemma_removed_ids_grow(current: Seq<(Seq<char>, Seq<char>, JsonV)>, specs: Seq<ModuleSpecV>, k: nat, n: nat)
    requires
        k <= n <= current.len(),
    ensures
        removed_ids(current, specs, k).len() <= removed_ids(current, specs, n).len(),
    decreases n - k,
{
    if k < n {
        lemma_removed_ids_grow(current, specs, k, (n - 1) as nat);
    }
}

} // verus!

verus! {

pub(crate) fn find_info_exec(current: &Vec<RuntimeModuleInfo>, id: &String) -> (r: Option<usize>)
    ensures
        r matches Some(i) ==> find_info(infos_view(current@), id@, 0) == Some(i as int),
        r is None ==> find_info(infos_view(current@), id@, 0) is None,
        r matches Some(i) ==> i < current@.len(),
{
    let ghost cv = infos_view(current@);
    let mut i: usize = 0;
    while i < current.len()
        invariant
            i <= current@.len(),
            cv == infos_view(current@),
            find_info(cv, id@, 0) == find_info(cv, id@, i as int),
        decreases current.len() - i,
    {
        if str_equal(current[i].id.as_str(), id.as_str()) {
            return Some(i);
        }
        i = i + 1;
    }
    None
}

pub open spec fn controls_view(v: Seq<(String, Vec<String>)>) -> Seq<(Seq<char>, Seq<Seq<char>>)> {
    Seq::new(v.len(), |i: int| (v[i].0@, crate::topology::names(v[i].1@)))
}

fn controls_for_exec(controls: &Vec<(String, Vec<String>)>, id: &String) -> (r: Option<usize>)
    ensures
        match r {
            Some(i) => i < controls@.len() && controls_for(controls_view(controls@), id@, 0) == crate::topology::names(controls@[i as int].1@),
            None => controls_for(controls_view(controls@), id@, 0) == Seq::<Seq<char>>::empty(),
        },
{
    let ghost cv = controls_view(controls@);
    let mut i: usize = 0;
    while i < controls.len()
        invariant
            i <= controls@.len(),
            cv == controls_view(controls@),
            controls_for(cv, id@, 0) == controls_for(cv, id@, i as int),
        decreases controls.len() - i,
    {
        if str_equal(controls[i].0.as_str(), id.as_str()) {
            return Some(i);
        }
        i = i + 1;
    }
    None
}

fn contains_name(v: &Vec<String>, x: &String) -> (r: bool)
    ensures
        r == crate::topology::names(v@).contains(x@),
{
    contains_text(v, x)
}

fn apply_module(
    plan: &mut ReloadPlan,
    current: &Vec<RuntimeModuleInfo>,
    spec: &ModuleSpec,
    changed: &Vec<String>,
    controls: &Vec<(String, Vec<String>)>,
)
    ensures
        final(plan).view() == module_step(old(plan).view(), infos_view(current@), spec.view(),
            crate::topology::names(changed@), controls_view(controls@)),
        final(plan).removed@ == old(plan).removed@,
        final(plan).removed_connections@ == old(plan).removed_connections@,
        final(plan).added_connections@ == old(plan).added_connections@,
{
    let ghost p0 = plan.view();
    let ghost expect = module_step(p0, infos_view(current@), spec.view(), crate::topology::names(changed@), controls_view(controls@));
    match find_info_exec(current, &spec.id) {
        None => {
            let ghost before = plan.added@;
            plan.added.push(module_spec_clone(spec));
            proof {
                assert(specs_view(plan.added@) =~= specs_view(before).push(spec.view()));
                assert(plan.view() == expect);
            }
        },
        Some(i) => {
            let info = &current[i];
            proof {
                assert(infos_view(current@)[i as int] == (info.id@, info.module_type@, info.config.view()));
            }
            if !str_equal(info.module_type.as_str(), spec.module_type.as_str()) || contains_name(changed, &spec.module_type) {
                let ghost before = plan.swapped@;
                plan.swapped.push(module_spec_clone(spec));
                proof {
                    assert(specs_view(plan.swapped@) =~= specs_view(before).push(spec.view()));
                    assert(plan.view() == expect);
                }
            } else if !configs_equal(&info.config, &spec.config) {
                let empty: Vec<String> = Vec::new();
                let keys: &Vec<String> = match controls_for_exec(controls, &spec.id) {
                    Some(j) => &controls[j].1,
                    None => &empty,
                };
                proof {
                    assert(crate::topology::names(empty@) =~= Seq::<Seq<char>>::empty());
                }
                match control_updates_for(&info.config, &spec.config, keys) {
                    Some(updates) => {
                        let ghost u0 = plan.unchanged@;
                        plan.unchanged.push(copy_string(&spec.id));
                        let ghost r0 = plan.refreshed_configs@;
                        plan.refreshed_configs.push((copy_string(&spec.id), json_clone(&spec.config)));
                        let ghost c0 = plan.control_updates@;
                        let mut j: usize = 0;
                        while j < updates.len()
                            invariant
                                j <= updates@.len(),
                                plan.control_updates@.len() == c0.len() + j,
                                forall|k: int| 0 <= k < c0.len() ==> plan.control_updates@[k] == c0[k],
                                forall|k: int| 0 <= k < j ==> (#[trigger] plan.control_updates@[c0.len() + k]).0@ == spec.id@
                                    && plan.control_updates@[c0.len() + k].1@ == updates@[k].0@
                                    && plan.control_updates@[c0.len() + k].2.view() == updates@[k].1.view(),
                                plan.added@ == old(plan).added@,
                                plan.swapped@ == old(plan).swapped@,
                                plan.removed@ == old(plan).removed@,
                                plan.removed_connections@ == old(plan).removed_connections@,
                                plan.added_connections@ == old(plan).added_connections@,
                                plan.unchanged@ == u0.push(plan.unchanged@.last()),
                                plan.unchanged@.len() == u0.len() + 1,
                                plan.unchanged@.last()@ == spec.id@,
                                plan.refreshed_configs@.len() == r0.len() + 1,
                                forall|k: int| 0 <= k < r0.len() ==> plan.refreshed_configs@[k] == r0[k],
                                plan.refreshed_configs@.last().0@ == spec.id@,
                                plan.refreshed_configs@.last().1.view() == spec.config.view(),
                            decreases updates.len() - j,
                        {
                            plan.control_updates.push((copy_string(&spec.id), copy_string(&updates[j].0),
                                crate::rpc::control_value_clone(&updates[j].1)));
                            j = j + 1;
                        }
                        proof {
                            let v = plan.view();
                            let u = updates_view(updates@);
                            let expected = p0.control_updates + Seq::new(u.len(), |k: int| (spec.id@, u[k].0, u[k].1));
                            assert forall|i: int| 0 <= i < v.control_updates.len() implies v.control_updates[i] == expected[i] by {
                                if i >= c0.len() {
                                    let k = i - c0.len();
                                    assert(plan.control_updates@[c0.len() + k] == plan.control_updates@[i]);
                                }
                            }
                            assert(v.control_updates =~= expected);
                            assert(v.unchanged =~= p0.unchanged.push(spec.id@));
                            assert(v.refreshed =~= p0.refreshed.push((spec.id@, spec.config.view())));
                            assert(control_updates_spec(info.config.view(), spec.config.view(),
                                controls_for(controls_view(controls@), spec.id@, 0)) == Some(u));
                            assert(v == PlanModel {
                                unchanged: p0.unchanged.push(spec.id@),
                                refreshed: p0.refreshed.push((spec.id@, spec.config.view())),
                                control_updates: expected,
                                ..p0
                            });
                            assert(plan.view() == expect);
                        }
                    },
                    None => {
                        let ghost before = plan.swapped@;
                        plan.swapped.push(module_spec_clone(spec));
                        proof {
                            assert(specs_view(plan.swapped@) =~= specs_view(before).push(spec.view()));
                            assert(plan.view() == expect);
                        }
                    },
                }
            } else {
                let ghost before = plan.unchanged@;
                plan.unchanged.push(copy_string(&spec.id));
                proof {
                    assert(crate::topology::names(plan.unchanged@) =~= crate::topology::names(before).push(spec.id@));
                    assert(plan.view() == expect);
                }
            }
        },
    }
}

pub(crate) fn conn_copy(c: &RuntimeConnectionInfo) -> (r: RuntimeConnectionInfo)
    ensures
        conn_view(r) == conn_view(*c),
{
    RuntimeConnectionInfo {
        from: copy_string(&c.from),
        from_port: copy_string(&c.from_port),
        to: copy_string(&c.to),
        to_port: copy_string(&c.to_port),
    }
}

fn conns_contain(v: &Vec<RuntimeConnectionInfo>, c: &RuntimeConnectionInfo) -> (r: bool)
    ensures
        r == conns_view(v@).contains(conn_view(*c)),
{
    let mut i: usize = 0;
    while i < v.len()
        invariant
            i <= v@.len(),
            forall|j: int| 0 <= j < i ==> conn_view(v@[j]) != conn_view(*c),
        decreases v.len() - i,
    {
        let x = &v[i];
        if str_equal(x.from.as_str(), c.from.as_str()) && str_equal(x.from_port.as_str(), c.from_port.as_str())
            && str_equal(x.to.as_str(), c.to.as_str()) && str_equal(x.to_port.as_str(), c.to_port.as_str()) {
            proof {
                assert(conns_view(v@)[i as int] == conn_view(*c));
            }
            return true;
        }
        i = i + 1;
    }
    false
}

proof fn lemma_desired_err(conns: Seq<crate::invention::ConnectionV>, k: nat, j: nat)
    requires
        k <= j <= conns.len(),
        desired_fold(conns, k) is Err,
    ensures
        desired_fold(conns, j) == desired_fold(conns, k),
    decreases j - k,
{
    if k < j {
        lemma_desired_err(conns, k, (j - 1) as nat);
    }
}

/// Diffs the new document against the running graph (see [`plan_spec`]).
/// `controls` lists, per running module id, the control keys it exposes.
pub fn plan_reload(
    current_modules: &Vec<RuntimeModuleInfo>,
    current_connections: &Vec<RuntimeConnectionInfo>,
    new: &Invention,
    changed_types: &Vec<String>,
    controls: &Vec<(String, Vec<String>)>,
) -> (r: Result<ReloadPlan, String>)
    ensures
        match plan_spec(infos_view(current_modules@), conns_view(current_connections@), new.view(),
            crate::topology::names(changed_types@), controls_view(controls@)) {
            Ok(p) => r matches Ok(x) && x.view() == p,
            Err(m) => r matches Err(e) && e@ == m,
        },
{
    let mut plan = ReloadPlan {
        added: Vec::new(),
        removed: Vec::new(),
        swapped: Vec::new(),
        control_updates: Vec::new(),
        refreshed_configs: Vec::new(),
        removed_connections: Vec::new(),
        added_connections: Vec::new(),
        unchanged: Vec::new(),
    };
    let ghost nv = new.view();
    let ghost cur = infos_view(current_modules@);
    let ghost chg = crate::topology::names(changed_types@);
    let ghost ctl = controls_view(controls@);
    proof {
        let v = plan.view();
        assert(v.added =~= Seq::<ModuleSpecV>::empty());
        assert(v.removed =~= Seq::<Seq<char>>::empty());
        assert(v.swapped =~= Seq::<ModuleSpecV>::empty());
        assert(v.control_updates =~= Seq::<(Seq<char>, Seq<char>, ControlValueV)>::empty());
        assert(v.refreshed =~= Seq::<(Seq<char>, JsonV)>::empty());
        assert(v.removed_connections =~= Seq::<(Seq<char>, Seq<char>, Seq<char>, Seq<char>)>::empty());
        assert(v.added_connections =~= Seq::<(Seq<char>, Seq<char>, Seq<char>, Seq<char>)>::empty());
        assert(v.unchanged =~= Seq::<Seq<char>>::empty());
        assert(v == empty_plan());
    }
    let mut k: usize = 0;
    while k < new.modules.len()
        invariant
            k <= new.modules@.len(),
            nv == new.view(),
            plan.view() == modules_fold(cur, nv.modules, chg, ctl, k as nat),
            plan.removed@.len() == 0,
            plan.removed_connections@.len() == 0,
            plan.added_connections@.len() == 0,
            cur == infos_view(current_modules@),
            chg == crate::topology::names(changed_types@),
            ctl == controls_view(controls@),
        decreases new.modules.len() - k,
    {
        proof {
            assert(nv.modules[k as int] == new.modules@[k as int].view());
        }
        apply_module(&mut plan, current_modules, &new.modules[k], changed_types, controls);
        k = k + 1;
    }
    // module ids the new document drops
    let mut i: usize = 0;
    while i < current_modules.len()
        invariant
            i <= current_modules@.len(),
            nv == new.view(),
            cur == infos_view(current_modules@),
            crate::topology::names(plan.removed@) == removed_ids(cur, nv.modules, i as nat),
            plan.view().added == modules_fold(cur, nv.modules, chg, ctl, nv.modules.len()).added,
            plan.view().swapped == modules_fold(cur, nv.modules, chg, ctl, nv.modules.len()).swapped,
            plan.view().control_updates == modules_fold(cur, nv.modules, chg, ctl, nv.modules.len()).control_updates,
            plan.view().refreshed == modules_fold(cur, nv.modules, chg, ctl, nv.modules.len()).refreshed,
            plan.view().unchanged == modules_fold(cur, nv.modules, chg, ctl, nv.modules.len()).unchanged,
            plan.removed_connections@.len() == 0,
            plan.added_connections@.len() == 0,
        decreases current_modules.len() - i,
    {
        let id = &current_modules[i].id;
        let mut found = false;
        let mut j: usize = 0;
        while j < new.modules.len()
            invariant
                j <= new.modules@.len(),
                nv == new.view(),
                found == exists|t: int| 0 <= t < j && (#[trigger] nv.modules[t]).id == id@,
            decreases new.modules.len() - j,
        {
            proof {
                assert(nv.modules[j as int] == new.modules@[j as int].view());
            }
            if str_equal(new.modules[j].id.as_str(), id.as_str()) {
                found = true;
            }
            j = j + 1;
        }
        proof {
            assert(cur[i as int].0 == id@);
        }
        if !found {
            let ghost before = plan.removed@;
            plan.removed.push(copy_string(id));
            proof {
                assert(crate::topology::names(plan.removed@) =~= crate::topology::names(before).push(id@));
            }
        }
        i = i + 1;
    }
    // connections the new document wants
    let mut desired: Vec<RuntimeConnectionInfo> = Vec::new();
    let mut k: usize = 0;
    proof {
        assert(conns_view(desired@) =~= Seq::<(Seq<char>, Seq<char>, Seq<char>, Seq<char>)>::empty());
    }
    while k < new.connections.len()
        invariant
            k <= new.connections@.len(),
            nv == new.view(),
            desired_fold(nv.connections, k as nat) == Ok::<Seq<(Seq<char>, Seq<char>, Seq<char>, Seq<char>)>, Seq<char>>(conns_view(desired@)),
        decreases new.connections.len() - k,
    {
        let c = &new.connections[k];
        proof {
            assert(nv.connections[k as int] == c.view());
        }
        let fp = match &c.from_port {
            Some(p) => p,
            None => {
                proof {
                    lemma_desired_err(nv.connections, (k + 1) as nat, nv.connections.len());
                }
                return Err(string_of(&crate::text::cat2("Missing from_port in connection from ", &crate::text::chars_of(c.from.as_str()))));
            },
        };
        let tp = match &c.to_port {
            Some(p) => p,
            None => {
                proof {
                    lemma_desired_err(nv.connections, (k + 1) as nat, nv.connections.len());
                }
                return Err(string_of(&crate::text::cat2("Missing to_port in connection to ", &crate::text::chars_of(c.to.as_str()))));
            },
        };
        let ghost before = desired@;
        desired.push(RuntimeConnectionInfo {
            from: copy_string(&c.from),
            from_port: copy_string(fp),
            to: copy_string(&c.to),
            to_port: copy_string(tp),
        });
        proof {
            assert(conns_view(desired@) =~= conns_view(before).push((c.from@, fp@, c.to@, tp@)));
        }
        k = k + 1;
    }
    let ghost dv = conns_view(desired@);
    let ghost rem = crate::topology::names(plan.removed@);
    let ghost a0 = plan.added@;
    let ghost s0 = plan.swapped@;
    let ghost cu0 = plan.control_updates@;
    let ghost rc0 = plan.refreshed_configs@;
    let ghost u0 = plan.unchanged@;
    let ghost r0 = plan.removed@;
    // running connections to drop
    let mut i: usize = 0;
    proof {
        assert(conns_view(plan.removed_connections@) =~= Seq::<(Seq<char>, Seq<char>, Seq<char>, Seq<char>)>::empty());
    }
    while i < current_connections.len()
        invariant
            i <= current_connections@.len(),
            dv == conns_view(desired@),
            rem == crate::topology::names(plan.removed@),
            conns_view(plan.removed_connections@) == drop_fold(conns_view(current_connections@), dv, rem, i as nat),
            plan.added_connections@.len() == 0,
            plan.added@ == a0,
            plan.swapped@ == s0,
            plan.control_updates@ == cu0,
            plan.refreshed_configs@ == rc0,
            plan.unchanged@ == u0,
            plan.removed@ == r0,
        decreases current_connections.len() - i,
    {
        let c = &current_connections[i];
        proof {
            assert(conns_view(current_connections@)[i as int] == conn_view(*c));
        }
        if !conns_contain(&desired, c) && !contains_name(&plan.removed, &c.from) && !contains_name(&plan.removed, &c.to) {
            let ghost before = plan.removed_connections@;
            plan.removed_connections.push(conn_copy(c));
            proof {
                assert(conns_view(plan.removed_connections@) =~= conns_view(before).push(conn_view(*c)));
            }
        }
        i = i + 1;
    }
    // wanted connections to add
    let ghost rcn = plan.removed_connections@;
    let mut i: usize = 0;
    proof {
        assert(conns_view(plan.added_connections@) =~= Seq::<(Seq<char>, Seq<char>, Seq<char>, Seq<char>)>::empty());
    }
    while i < desired.len()
        invariant
            i <= desired@.len(),
            dv == conns_view(desired@),
            conns_view(plan.added_connections@) == add_fold(dv, conns_view(current_connections@), i as nat),
            plan.added@ == a0,
            plan.swapped@ == s0,
            plan.control_updates@ == cu0,
            plan.refreshed_configs@ == rc0,
            plan.unchanged@ == u0,
            plan.removed@ == r0,
            plan.removed_connections@ == rcn,
        decreases desired.len() - i,
    {
        let c = &desired[i];
        if !conns_contain(current_connections, c) {
            let ghost before = plan.added_connections@;
            plan.added_connections.push(conn_copy(c));
            proof {
                assert(conns_view(plan.added_connections@) =~= conns_view(before).push(conn_view(*c)));
            }
        }
        i = i + 1;
    }
    Ok(plan)
}

} // verus!

verus! {

// ---------------------------------------------------------------------------
// Changed development types

/// Development definitions keyed by registered type name, in name order.
pub struct DevelopmentDefinitions {
    pub definitions: Vec<(String, Invention)>,
}

pub open spec fn defs_view(v: Seq<(String, Invention)>) -> Seq<(Seq<char>, InventionV)> {
    Seq::new(v.len(), |i: int| (v[i].0@, v[i].1.view()))
}

/// The definition registered under `name`.
pub open spec fn def_of(defs: Seq<(Seq<char>, InventionV)>, name: Seq<char>) -> Option<InventionV> {
    if exists|i: int| 0 <= i < defs.len() && defs[i].0 == name {
        Some(defs[choose|i: int| 0 <= i < defs.len() && defs[i].0 == name].1)
    } else {
        None
    }
}

/// Names are unique.
pub open spec fn defs_unique(defs: Seq<(Seq<char>, InventionV)>) -> bool {
    forall|i: int, j: int| 0 <= i < j < defs.len() ==> defs[i].0 != defs[j].0
}

/// A type is directly changed when its new definition differs from the
/// previous one (or had none).
pub open spec fn directly_changed(prev: Seq<(Seq<char>, InventionV)>, new: Seq<(Seq<char>, InventionV)>, name: Seq<char>) -> bool {
    exists|i: int| 0 <= i < new.len() && new[i].0 == name && def_of(prev, name) != Some(new[i].1)
}

/// A set of type names is closed when every new definition that
/// instantiates a type in the set is in the set too.
pub open spec fn closed_under_use(new: Seq<(Seq<char>, InventionV)>, s: Set<Seq<char>>) -> bool {
    forall|i: int, m: int| #![trigger new[i].1.modules[m]]
        0 <= i < new.len() && 0 <= m < new[i].1.modules.len() && s.contains(new[i].1.modules[m].module_type)
            ==> s.contains(new[i].0)
}

/// The changed types: the least set that holds every directly changed type
/// and is closed under use.
pub open spec fn is_least_changed(prev: Seq<(Seq<char>, InventionV)>, new: Seq<(Seq<char>, InventionV)>, r: Set<Seq<char>>) -> bool {
    &&& forall|n: Seq<char>| directly_changed(prev, new, n) ==> r.contains(n)
    &&& closed_under_use(new, r)
    &&& forall|s: Set<Seq<char>>|
        (forall|n: Seq<char>| directly_changed(prev, new, n) ==> s.contains(n)) && closed_under_use(new, s)
            ==> r.subset_of(s)
}

fn def_index(defs: &Vec<(String, Invention)>, name: &String) -> (r: Option<usize>)
    ensures
        r matches Some(i) ==> i < defs@.len() && defs@[i as int].0@ == name@,
        r is None ==> forall|i: int| 0 <= i < defs@.len() ==> defs@[i].0@ != name@,
{
    let mut i: usize = 0;
    while i < defs.len()
        invariant
            i <= defs@.len(),
            forall|j: int| 0 <= j < i ==> defs@[j].0@ != name@,
        decreases defs.len() - i,
    {
        if str_equal(defs[i].0.as_str(), name.as_str()) {
            return Some(i);
        }
        i = i + 1;
    }
    None
}

/// A name of `c` is justified when it is directly changed, or when its new
/// definition instantiates a type named earlier in `c`.
pub open spec fn justified(prev: Seq<(Seq<char>, InventionV)>, new: Seq<(Seq<char>, InventionV)>, c: Seq<Seq<char>>, k: int) -> bool {
    ||| directly_changed(prev, new, c[k])
    ||| exists|i: int, m: int, k2: int| #![trigger new[i].1.modules[m], c[k2]]
        0 <= i < new.len() && new[i].0 == c[k] && 0 <= m < new[i].1.modules.len() && 0 <= k2 < k
            && c[k2] == new[i].1.modules[m].module_type
}

/// The names of the definitions.
pub open spec fn def_names(defs: Seq<(Seq<char>, InventionV)>) -> Seq<Seq<char>> {
    Seq::new(defs.len(), |i: int| defs[i].0)
}

/// Every justified name lies in every closed set that holds the directly
/// changed names.
proof fn lemma_justified_in(prev: Seq<(Seq<char>, InventionV)>, new: Seq<(Seq<char>, InventionV)>, c: Seq<Seq<char>>, s: Set<Seq<char>>, k: int)
    requires
        0 <= k < c.len(),
        forall|j: int| 0 <= j < c.len() ==> justified(prev, new, c, j),
        forall|n: Seq<char>| directly_changed(prev, new, n) ==> s.contains(n),
        closed_under_use(new, s),
    ensures
        s.contains(c[k]),
    decreases k,
{
    assert(justified(prev, new, c, k));
    if !directly_changed(prev, new, c[k]) {
        let (i, m, k2) = choose|i: int, m: int, k2: int| #![trigger new[i].1.modules[m], c[k2]]
            0 <= i < new.len() && new[i].0 == c[k] && 0 <= m < new[i].1.modules.len() && 0 <= k2 < k
                && c[k2] == new[i].1.modules[m].module_type;
        lemma_justified_in(prev, new, c, s, k2);
        assert(s.contains(new[i].1.modules[m].module_type));
    }
}

/// A list without repeats, drawn from `b`, is no longer than `b`.
proof fn lemma_distinct_len(a: Seq<Seq<char>>, b: Seq<Seq<char>>)
    requires
        a.no_duplicates(),
        forall|x: Seq<char>| a.contains(x) ==> b.contains(x),
    ensures
        a.len() <= b.len(),
{
    a.unique_seq_to_set();
    b.lemma_cardinality_of_set();
    vstd::seq_lib::seq_to_set_is_finite(b);
    assert(a.to_set().subset_of(b.to_set()));
    vstd::set_lib::lemma_len_subset(a.to_set(), b.to_set());
}

/// Whether the definition instantiates a type named in `set`.
fn uses_any(def: &Invention, set: &Vec<String>) -> (r: bool)
    ensures
        r == exists|m: int| 0 <= m < def.view().modules.len()
            && crate::topology::names(set@).contains(#[trigger] def.view().modules[m].module_type),
{
    let mut m: usize = 0;
    while m < def.modules.len()
        invariant
            m <= def.modules@.len(),
            def.view().modules.len() == def.modules@.len(),
            forall|j: int| 0 <= j < m ==> !crate::topology::names(set@).contains(#[trigger] def.view().modules[j].module_type),
        decreases def.modules.len() - m,
    {
        if contains_name(set, &def.modules[m].module_type) {
            assert(def.view().modules[m as int].module_type == def.modules@[m as int].module_type@);
            return true;
        }
        assert(def.view().modules[m as int].module_type == def.modules@[m as int].module_type@);
        m = m + 1;
    }
    false
}

/// Returns the development type names whose definitions changed between the
/// previously loaded definitions and the new ones, transitively: a
/// development whose definition instantiates a changed type is itself
/// changed. A name with no previous definition counts as changed.
pub fn changed_development_types(previous: &DevelopmentDefinitions, new: &DevelopmentDefinitions) -> (r: Vec<String>)
    requires
        defs_unique(defs_view(previous.definitions@)),
        defs_unique(defs_view(new.definitions@)),
    ensures
        is_least_changed(defs_view(previous.definitions@), defs_view(new.definitions@), crate::topology::names(r@).to_set()),
        crate::topology::names(r@).no_duplicates(),
{
    let ghost pv = defs_view(previous.definitions@);
    let ghost nv = defs_view(new.definitions@);
    let mut changed: Vec<String> = Vec::new();
    let mut i: usize = 0;
    while i < new.definitions.len()
        invariant
            i <= new.definitions@.len(),
            pv == defs_view(previous.definitions@),
            nv == defs_view(new.definitions@),
            defs_unique(pv),
            defs_unique(nv),
            crate::topology::names(changed@).len() == changed@.len(),
            forall|k: int| 0 <= k < changed@.len() ==> directly_changed(pv, nv, #[trigger] crate::topology::names(changed@)[k]),
            forall|k: int| 0 <= k < changed@.len() ==> exists|j: int| 0 <= j < i && nv[j].0 == #[trigger] crate::topology::names(changed@)[k],
            crate::topology::names(changed@).no_duplicates(),
            forall|j: int| 0 <= j < i && directly_changed(pv, nv, #[trigger] nv[j].0)
                ==> crate::topology::names(changed@).contains(nv[j].0),
        decreases new.definitions.len() - i,
    {
        let (name, def) = (&new.definitions[i].0, &new.definitions[i].1);
        proof {
            assert(nv[i as int] == (name@, def.view()));
        }
        let same = match def_index(&previous.definitions, name) {
            Some(j) => {
                proof {
                    assert(pv[j as int].0 == name@);
                    assert(def_of(pv, name@) == Some(pv[j as int].1)) by {
                        let c = choose|k: int| 0 <= k < pv.len() && pv[k].0 == name@;
                        if c != j {
                            assert(pv[c].0 == pv[j as int].0);
                        }
                    }
                }
                invention_equal(&previous.definitions[j].1, def)
            },
            None => {
                proof {
                    assert(def_of(pv, name@) is None) by {
                        if exists|k: int| 0 <= k < pv.len() && pv[k].0 == name@ {
                            let k = choose|k: int| 0 <= k < pv.len() && pv[k].0 == name@;
                            assert(previous.definitions@[k].0@ == name@);
                        }
                    }
                }
                false
            },
        };
        proof {
            assert(directly_changed(pv, nv, name@) == !same) by {
                if directly_changed(pv, nv, name@) {
                    let k = choose|k: int| 0 <= k < nv.len() && nv[k].0 == name@ && def_of(pv, name@) != Some(nv[k].1);
                    if k != i {
                        assert(nv[k].0 == nv[i as int].0);
                    }
                }
                if !same {
                    assert(nv[i as int].0 == name@);
                }
            }
        }
        let ghost before = changed@;
        if !same {
            changed.push(copy_string(name));
            proof {
                assert(crate::topology::names(changed@) =~= crate::topology::names(before).push(name@));
                assert(!crate::topology::names(before).contains(name@)) by {
                    if crate::topology::names(before).contains(name@) {
                        let k = choose|k: int| 0 <= k < before.len() && crate::topology::names(before)[k] == name@;
                        let j = choose|j: int| 0 <= j < i && nv[j].0 == #[trigger] crate::topology::names(before)[k];
                        assert(nv[j].0 == nv[i as int].0);
                    }
                }
            }
        }
        proof {
            assert forall|k: int| 0 <= k < changed@.len() implies exists|j: int| 0 <= j < i + 1 && nv[j].0 == #[trigger] crate::topology::names(changed@)[k] by {
                if k < before.len() {
                    assert(crate::topology::names(changed@)[k] == crate::topology::names(before)[k]);
                    let j = choose|j: int| 0 <= j < i && nv[j].0 == #[trigger] crate::topology::names(before)[k];
                    assert(nv[j].0 == crate::topology::names(changed@)[k]);
                } else {
                    assert(nv[i as int].0 == crate::topology::names(changed@)[k]);
                }
            }
            assert forall|k: int| 0 <= k < changed@.len() implies directly_changed(pv, nv, #[trigger] crate::topology::names(changed@)[k]) by {
                if k < before.len() {
                    assert(crate::topology::names(changed@)[k] == crate::topology::names(before)[k]);
                }
            }
            assert forall|j: int| 0 <= j < i + 1 && directly_changed(pv, nv, #[trigger] nv[j].0)
                implies crate::topology::names(changed@).contains(nv[j].0) by {
                if j < i {
                    let k = choose|k: int| 0 <= k < before.len() && crate::topology::names(before)[k] == nv[j].0;
                    assert(crate::topology::names(changed@)[k] == nv[j].0);
                } else {
                    assert(crate::topology::names(changed@)[changed@.len() - 1] == nv[j].0);
                }
            }
        }
        i = i + 1;
    }
    proof {
        assert forall|k: int| 0 <= k < changed@.len() implies justified(pv, nv, crate::topology::names(changed@), k) by {
            assert(directly_changed(pv, nv, crate::topology::names(changed@)[k]));
        }
        assert forall|k: int| 0 <= k < changed@.len() implies def_names(nv).contains(#[trigger] crate::topology::names(changed@)[k]) by {
            let j = choose|j: int| 0 <= j < nv.len() && nv[j].0 == #[trigger] crate::topology::names(changed@)[k];
            assert(def_names(nv)[j] == nv[j].0);
        }
    }
    // Close the set under use: sweep until nothing grows.
    loop
        invariant
            pv == defs_view(previous.definitions@),
            nv == defs_view(new.definitions@),
            crate::topology::names(changed@).len() == changed@.len(),
            crate::topology::names(changed@).no_duplicates(),
            forall|k: int| 0 <= k < changed@.len() ==> justified(pv, nv, crate::topology::names(changed@), k),
            forall|k: int| 0 <= k < changed@.len() ==> def_names(nv).contains(#[trigger] crate::topology::names(changed@)[k]),
            forall|j: int| 0 <= j < nv.len() && directly_changed(pv, nv, #[trigger] nv[j].0)
                ==> crate::topology::names(changed@).contains(nv[j].0),
        ensures
            closed_under_use(nv, crate::topology::names(changed@).to_set()),
        decreases nv.len() - changed@.len(),
    {
        proof {
            lemma_distinct_len(crate::topology::names(changed@), def_names(nv));
        }
        let ghost start = changed@;
        let mut grew = false;
        let mut i: usize = 0;
        while i < new.definitions.len()
            invariant
                i <= new.definitions@.len(),
                pv == defs_view(previous.definitions@),
                nv == defs_view(new.definitions@),
                crate::topology::names(changed@).len() == changed@.len(),
                crate::topology::names(changed@).no_duplicates(),
                forall|k: int| 0 <= k < changed@.len() ==> justified(pv, nv, crate::topology::names(changed@), k),
                forall|k: int| 0 <= k < changed@.len() ==> def_names(nv).contains(#[trigger] crate::topology::names(changed@)[k]),
                forall|j: int| 0 <= j < nv.len() && directly_changed(pv, nv, #[trigger] nv[j].0)
                    ==> crate::topology::names(changed@).contains(nv[j].0),
                changed@.len() >= start.len(),
                grew ==> changed@.len() > start.len(),
                !grew ==> changed@ == start,
                !grew ==> forall|j: int, m: int| #![trigger nv[j].1.modules[m]]
                    0 <= j < i && 0 <= m < nv[j].1.modules.len()
                        && crate::topology::names(changed@).contains(nv[j].1.modules[m].module_type)
                        ==> crate::topology::names(changed@).contains(nv[j].0),
            decreases new.definitions.len() - i,
        {
            let (name, def) = (&new.definitions[i].0, &new.definitions[i].1);
            proof {
                assert(nv[i as int] == (name@, def.view()));
            }
            if !contains_name(&changed, name) && uses_any(def, &changed) {
                let ghost before = changed@;
                let ghost m0 = choose|m: int| 0 <= m < def.view().modules.len()
                    && crate::topology::names(before).contains(#[trigger] def.view().modules[m].module_type);
                changed.push(copy_string(name));
                grew = true;
                proof {
                    let nb = crate::topology::names(before);
                    let nc = crate::topology::names(changed@);
                    assert(nc =~= nb.push(name@));
                    let k2 = choose|k2: int| 0 <= k2 < nb.len() && nb[k2] == def.view().modules[m0].module_type;
                    assert forall|k: int| 0 <= k < changed@.len() implies justified(pv, nv, nc, k) by {
                        if k < before.len() {
                            assert(justified(pv, nv, nb, k));
                            if !directly_changed(pv, nv, nb[k]) {
                                let (a, b, c) = choose|a: int, b: int, c: int| #![trigger nv[a].1.modules[b], nb[c]]
                                    0 <= a < nv.len() && nv[a].0 == nb[k] && 0 <= b < nv[a].1.modules.len() && 0 <= c < k
                                        && nb[c] == nv[a].1.modules[b].module_type;
                                assert(nc[c] == nb[c]);
                            }
                        } else {
                            assert(nc[k2] == nb[k2]);
                            assert(nv[i as int].1.modules[m0] == def.view().modules[m0]);
                        }
                    }
                    assert forall|k: int| 0 <= k < changed@.len() implies def_names(nv).contains(#[trigger] nc[k]) by {
                        if k == before.len() {
                            assert(def_names(nv)[i as int] == name@);
                        } else {
                            assert(nc[k] == nb[k]);
                        }
                    }
                    assert forall|j: int| 0 <= j < nv.len() && directly_changed(pv, nv, #[trigger] nv[j].0)
                        implies nc.contains(nv[j].0) by {
                        let k = choose|k: int| 0 <= k < nb.len() && nb[k] == nv[j].0;
                        assert(nc[k] == nv[j].0);
                    }
                }
            } else {
                proof {
                    if !grew {
                        assert forall|j: int, m: int| #![trigger nv[j].1.modules[m]]
                            0 <= j < i + 1 && 0 <= m < nv[j].1.modules.len()
                                && crate::topology::names(changed@).contains(nv[j].1.modules[m].module_type)
                                implies crate::topology::names(changed@).contains(nv[j].0) by {
                            if j == i {
                                assert(nv[j].1.modules[m] == def.view().modules[m]);
                            }
                        }
                    }
                }
            }
            i = i + 1;
        }
        proof {
            lemma_distinct_len(crate::topology::names(changed@), def_names(nv));
        }
        if !grew {
            proof {
                let r = crate::topology::names(changed@).to_set();
                assert forall|j: int, m: int| #![trigger nv[j].1.modules[m]]
                    0 <= j < nv.len() && 0 <= m < nv[j].1.modules.len() && r.contains(nv[j].1.modules[m].module_type)
                        implies r.contains(nv[j].0) by {
                    assert(crate::topology::names(changed@).contains(nv[j].1.modules[m].module_type));
                }
            }
            break;
        }
    }
    proof {
        let c = crate::topology::names(changed@);
        let r = c.to_set();
        assert forall|n: Seq<char>| directly_changed(pv, nv, n) implies r.contains(n) by {
            let j = choose|j: int| 0 <= j < nv.len() && nv[j].0 == n && def_of(pv, n) != Some(nv[j].1);
            assert(directly_changed(pv, nv, nv[j].0));
        }
        assert forall|s: Set<Seq<char>>|
            (forall|n: Seq<char>| directly_changed(pv, nv, n) ==> s.contains(n)) && closed_under_use(nv, s)
                implies r.subset_of(s) by {
            assert forall|n: Seq<char>| r.contains(n) implies s.contains(n) by {
                let k = choose|k: int| 0 <= k < c.len() && c[k] == n;
                lemma_justified_in(pv, nv, c, s, k);
            }
        }
    }
    changed
}

/// Reloading the very definitions that are loaded changes no development
/// type: the changed set of identical definitions is empty.
pub proof fn lemma_same_definitions_change_nothing(defs: Seq<(Seq<char>, InventionV)>, r: Set<Seq<char>>)
    requires
        defs_unique(defs),
        is_least_changed(defs, defs, r),
    ensures
        r == Set::<Seq<char>>::empty(),
{
    assert forall|n: Seq<char>| directly_changed(defs, defs, n) implies Set::<Seq<char>>::empty().contains(n) by {
        let i = choose|i: int| 0 <= i < defs.len() && defs[i].0 == n && def_of(defs, n) != Some(defs[i].1);
        let j = choose|j: int| 0 <= j < defs.len() && defs[j].0 == n;
        assert(j == i);
    }
    assert(r.subset_of(Set::<Seq<char>>::empty()));
    assert(r =~= Set::<Seq<char>>::empty());
}

} // verus!

verus! {

/// The ids of module specs.
pub open spec fn spec_ids(v: Seq<ModuleSpecV>) -> Seq<Seq<char>> {
    Seq::new(v.len(), |i: int| v[i].id)
}

fn ids_of(v: &Vec<ModuleSpec>) -> (r: Vec<String>)
    ensures
        crate::topology::names(r@) == spec_ids(specs_view(v@)),
{
    let mut r: Vec<String> = Vec::new();
    let mut i: usize = 0;
    while i < v.len()
        invariant
            i <= v@.len(),
            r@.len() == i,
            forall|k: int| 0 <= k < i ==> (#[trigger] r@[k])@ == v@[k].id@,
        decreases v.len() - i,
    {
        r.push(copy_string(&v[i].id));
        i = i + 1;
    }
    proof {
        assert(crate::topology::names(r@) =~= spec_ids(specs_view(v@)));
    }
    r
}

impl ReloadPlan {
    /// What applying this plan did to the running graph: the ids added,
    /// removed and swapped, each control update as `module.key`, and the
    /// counts of connections added and removed and of unchanged modules.
    pub fn report(&self) -> (r: ReloadReport)
        ensures
            crate::topology::names(r.added@) == spec_ids(self.view().added),
            crate::topology::names(r.removed@) == self.view().removed,
            crate::topology::names(r.swapped@) == spec_ids(self.view().swapped),
            crate::topology::names(r.controls_updated@) == Seq::new(self.view().control_updates.len(),
                |i: int| self.view().control_updates[i].0 + "."@ + self.view().control_updates[i].1),
            r.connections_added == self.added_connections@.len(),
            r.connections_removed == self.removed_connections@.len(),
            r.unchanged == self.unchanged@.len(),
    {
        let mut removed: Vec<String> = Vec::new();
        let mut i: usize = 0;
        while i < self.removed.len()
            invariant
                i <= self.removed@.len(),
                removed@.len() == i,
                forall|k: int| 0 <= k < i ==> (#[trigger] removed@[k])@ == self.removed@[k]@,
            decreases self.removed.len() - i,
        {
            removed.push(copy_string(&self.removed[i]));
            i = i + 1;
        }
        let mut controls_updated: Vec<String> = Vec::new();
        let mut i: usize = 0;
        while i < self.control_updates.len()
            invariant
                i <= self.control_updates@.len(),
                controls_updated@.len() == i,
                forall|k: int| 0 <= k < i ==> (#[trigger] controls_updated@[k])@
                    == self.control_updates@[k].0@ + "."@ + self.control_updates@[k].1@,
            decreases self.control_updates.len() - i,
        {
            let u = &self.control_updates[i];
            let mut t: Vec<char> = crate::text::chars_of(u.0.as_str());
            crate::text::push_str(&mut t, ".");
            crate::text::push_str(&mut t, u.1.as_str());
            controls_updated.push(crate::text::string_of(&t));
            i = i + 1;
        }
        let r = ReloadReport {
            added: ids_of(&self.added),
            removed,
            swapped: ids_of(&self.swapped),
            controls_updated,
            connections_added: self.added_connections.len(),
            connections_removed: self.removed_connections.len(),
            unchanged: self.unchanged.len(),
        };
        proof {
            assert(crate::topology::names(r.removed@) =~= self.view().removed);
            assert(crate::topology::names(r.controls_updated@) =~= Seq::new(self.view().control_updates.len(),
                |i: int| self.view().control_updates[i].0 + "."@ + self.view().control_updates[i].1));
        }
        r
    }
}

} // verus!

verus! {

// ---------------------------------------------------------------------------
// Resolving development definitions

/// Every development name in `inv`, inline definitions included, is in `u`.
pub open spec fn names_in(inv: InventionV, u: Seq<Seq<char>>) -> bool
    decreases inv,
{
    forall|k: int| #![trigger inv.developments[k]] 0 <= k < inv.developments.len() ==> {
        &&& u.contains(inv.developments[k].name)
        &&& match inv.developments[k].definition {
            Some(x) => names_in(x, u),
            None => true,
        }
    }
}

proof fn lemma_names_in_mono(inv: InventionV, a: Seq<Seq<char>>, b: Seq<Seq<char>>)
    requires
        names_in(inv, a),
        forall|x: Seq<char>| a.contains(x) ==> b.contains(x),
    ensures
        names_in(inv, b),
    decreases inv,
{
    assert forall|k: int| #![trigger inv.developments[k]] 0 <= k < inv.developments.len() implies {
        &&& b.contains(inv.developments[k].name)
        &&& match inv.developments[k].definition {
            Some(x) => names_in(x, b),
            None => true,
        }
    } by {
        match inv.developments[k].definition {
            Some(x) => {
                lemma_names_in_mono(x, a, b);
            },
            None => {},
        }
    }
}

/// A development's name, and the names nested in its inline definition,
/// are in `u`.
pub open spec fn dev_in(d: DevelopmentV, u: Seq<Seq<char>>) -> bool {
    &&& u.contains(d.name)
    &&& match d.definition {
        Some(x) => names_in(x, u),
        None => true,
    }
}

/// Collects into `u` every development name of `inv`, nested ones too.
fn gather_names(inv: &Invention, u: &mut Vec<String>)
    ensures
        names_in(inv.view(), crate::topology::names(final(u)@)),
        forall|x: Seq<char>| crate::topology::names(old(u)@).contains(x) ==> crate::topology::names(final(u)@).contains(x),
    decreases inv,
{
    proof {
        lemma_developments_view(inv.developments@);
    }
    let ghost v = inv.view();
    let mut k: usize = 0;
    while k < inv.developments.len()
        invariant
            k <= inv.developments@.len(),
            v == inv.view(),
            v.developments.len() == inv.developments@.len(),
            forall|x: Seq<char>| crate::topology::names(old(u)@).contains(x) ==> crate::topology::names(u@).contains(x),
            forall|kk: int| 0 <= kk < k ==> #[trigger] dev_in(v.developments[kk], crate::topology::names(u@)),
        decreases inv.developments.len() - k,
    {
        proof {
            lemma_developments_view(inv.developments@);
        }
        let d = &inv.developments[k];
        let ghost before = crate::topology::names(u@);
        u.push(copy_string(&d.name));
        proof {
            assert(crate::topology::names(u@) =~= before.push(d.name@));
            assert(crate::topology::names(u@)[before.len() as int] == d.name@);
        }
        let ghost mid = crate::topology::names(u@);
        match &d.definition {
            Some(x) => {
                proof {
                    assert(decreases_to!(*inv => inv.developments));
                    assert(decreases_to!(inv.developments => inv.developments@));
                    assert(decreases_to!(inv.developments@ => inv.developments@[k as int]));
                    assert(decreases_to!(inv.developments@[k as int] => inv.developments@[k as int].definition));
                    assert(decreases_to!(inv.developments@[k as int].definition => inv.developments@[k as int].definition->Some_0));
                }
                gather_names(x, u);
            },
            None => {},
        }
        proof {
            let after = crate::topology::names(u@);
            assert forall|x: Seq<char>| before.contains(x) implies after.contains(x) by {
                let i = choose|i: int| 0 <= i < before.len() && before[i] == x;
                assert(mid[i] == x);
                assert(mid.contains(x));
            }
            assert forall|kk: int| 0 <= kk < k + 1 implies #[trigger] dev_in(v.developments[kk], after) by {
                let dk = v.developments[kk];
                if kk < k {
                    assert(dev_in(dk, before));
                    match dk.definition {
                        Some(x) => {
                            assert(names_in(x, before));
                            lemma_names_in_mono(x, before, after);
                        },
                        None => {},
                    }
                } else {
                    assert(mid.contains(d.name@));
                    assert(dk.definition == match d.definition {
                        Some(b) => Some(b.view()),
                        None => None,
                    });
                }
            }
        }
        k = k + 1;
    }
    proof {
        let nu = crate::topology::names(u@);
        assert forall|kk: int| #![trigger v.developments[kk]] 0 <= kk < v.developments.len() implies {
            &&& nu.contains(v.developments[kk].name)
            &&& match v.developments[kk].definition {
                Some(x) => names_in(x, nu),
                None => true,
            }
        } by {
            assert(dev_in(v.developments[kk], nu));
        }
    }
}

/// Every development spec of `inv`, nested ones included, gives an inline
/// definition and no path.
pub open spec fn inline_only(inv: InventionV) -> bool
    decreases inv,
{
    forall|k: int| #![trigger inv.developments[k]] 0 <= k < inv.developments.len() ==> {
        &&& inv.developments[k].path is None
        &&& match inv.developments[k].definition {
            Some(x) => inline_only(x),
            None => false,
        }
    }
}

/// `x` is `inv` itself or a definition nested in it, at any depth.
pub open spec fn nested(inv: InventionV, x: InventionV) -> bool
    decreases inv,
{
    ||| inv == x
    ||| exists|k: int| #![trigger inv.developments[k]] 0 <= k < inv.developments.len()
        && match inv.developments[k].definition {
            Some(y) => nested(y, x),
            None => false,
        }
}

proof fn lemma_nested_trans(a: InventionV, b: InventionV, c: InventionV)
    requires
        nested(a, b),
        nested(b, c),
    ensures
        nested(a, c),
    decreases a,
{
    if a != b {
        let k = choose|k: int| #![trigger a.developments[k]] 0 <= k < a.developments.len()
            && match a.developments[k].definition {
                Some(y) => nested(y, b),
                None => false,
            };
        let y = a.developments[k].definition->Some_0;
        lemma_nested_trans(y, b, c);
    }
}

/// A document whose development specs the collection may read: the root,
/// a loaded document, or a definition nested in one of them.
pub open spec fn within(root: InventionV, loaded: Seq<(Seq<char>, InventionV)>, x: InventionV) -> bool {
    ||| nested(root, x)
    ||| exists|i: int| 0 <= i < loaded.len() && nested(#[trigger] loaded[i].1, x)
}

/// `m` is the error for development spec `d` of document `doc`: both
/// sources set, neither set, or a relative path in a document that was not
/// read from a file.
pub open spec fn malformed(doc: InventionV, d: DevelopmentV, m: Seq<char>) -> bool {
    ||| d.path is Some && d.definition is Some && m == both_sources_msg(d.name)
    ||| d.path is None && d.definition is None && m == no_source_msg(d.name)
    ||| d.path is Some && d.definition is None && doc.source_path is None
        && m == relative_path_msg("development"@, d.path->Some_0)
}

/// `m` is the error of a development spec of a document within reach.
pub open spec fn refused(root: InventionV, loaded: Seq<(Seq<char>, InventionV)>, m: Seq<char>) -> bool {
    exists|doc: InventionV, k: int| #![trigger within(root, loaded, doc), doc.developments[k]]
        within(root, loaded, doc) && 0 <= k < doc.developments.len() && malformed(doc, doc.developments[k], m)
}

/// `q` is what a path-based development spec of a document within reach
/// resolves to: its authored path when that document was not read from a
/// file.
pub open spec fn requested(root: InventionV, loaded: Seq<(Seq<char>, InventionV)>, q: Seq<char>) -> bool {
    exists|doc: InventionV, k: int| #![trigger within(root, loaded, doc), doc.developments[k]]
        within(root, loaded, doc) && 0 <= k < doc.developments.len()
            && doc.developments[k].path is Some && doc.developments[k].definition is None
            && (doc.source_path is None ==> q == doc.developments[k].path->Some_0)
}

/// Every path-based development spec within reach sits in a document not
/// read from a file, and its path has been loaded.
pub open spec fn all_paths_loaded(root: InventionV, loaded: Seq<(Seq<char>, InventionV)>) -> bool {
    forall|doc: InventionV, k: int| #![trigger within(root, loaded, doc), doc.developments[k]]
        within(root, loaded, doc) && 0 <= k < doc.developments.len()
            && doc.developments[k].path is Some && doc.developments[k].definition is None
        ==> doc.source_path is None
            && exists|i: int| 0 <= i < loaded.len() && loaded[i].0 == doc.developments[k].path->Some_0
}

proof fn lemma_requested_loaded(root: InventionV, loaded: Seq<(Seq<char>, InventionV)>, q: Seq<char>)
    requires
        requested(root, loaded, q),
        all_paths_loaded(root, loaded),
    ensures
        exists|i: int| 0 <= i < loaded.len() && loaded[i].0 == q,
{
    let (doc, k) = choose|doc: InventionV, k: int| #![trigger within(root, loaded, doc), doc.developments[k]]
        within(root, loaded, doc) && 0 <= k < doc.developments.len()
            && doc.developments[k].path is Some && doc.developments[k].definition is None
            && (doc.source_path is None ==> q == doc.developments[k].path->Some_0);
    assert(doc.source_path is None);
}

/// A definition read from a spec of a document within reach is within
/// reach: an inline one is nested in that document, a loaded one is a
/// loaded document.
proof fn lemma_within_step(root: InventionV, lv: Seq<(Seq<char>, InventionV)>, v: InventionV, k: int, xv: InventionV)
    requires
        within(root, lv, v),
        0 <= k < v.developments.len(),
        v.developments[k].definition == Some(xv) || exists|i: int| 0 <= i < lv.len() && lv[i].1 == xv,
    ensures
        within(root, lv, xv),
{
    if v.developments[k].definition == Some(xv) {
        assert(nested(xv, xv));
        assert(nested(v, xv));
        if nested(root, v) {
            lemma_nested_trans(root, v, xv);
        } else {
            let i = choose|i: int| 0 <= i < lv.len() && nested(#[trigger] lv[i].1, v);
            lemma_nested_trans(lv[i].1, v, xv);
        }
    } else {
        let i = choose|i: int| 0 <= i < lv.len() && lv[i].1 == xv;
        assert(nested(lv[i].1, xv));
    }
}

/// The document whose development specs were being read when an entry was
/// collected: the root (`f < 0`) or entry `f`'s definition.
pub open spec fn frame(root: InventionV, defs: Seq<(Seq<char>, InventionV)>, f: int) -> InventionV {
    if f < 0 { root } else { defs[f].1 }
}

/// A definition came from a development spec: its inline definition, or one
/// of the loaded documents for a path.
pub open spec fn source_ok(d: DevelopmentV, def: InventionV, loaded: Seq<(Seq<char>, InventionV)>) -> bool {
    match (d.path, d.definition) {
        (None, Some(x)) => def == x,
        (Some(_), None) => exists|i: int| 0 <= i < loaded.len() && loaded[i].1 == def,
        _ => false,
    }
}

/// Entry `j` was collected from a development spec of the root or of an
/// earlier entry's definition, with that spec's name and definition.
pub open spec fn provenance_ok(root: InventionV, defs: Seq<(Seq<char>, InventionV)>, loaded: Seq<(Seq<char>, InventionV)>, j: int) -> bool {
    exists|f: int, k: int| #![trigger frame(root, defs, f).developments[k]]
        -1 <= f < j && 0 <= k < frame(root, defs, f).developments.len()
            && frame(root, defs, f).developments[k].name == defs[j].0
            && source_ok(frame(root, defs, f).developments[k], defs[j].1, loaded)
}

/// Every development name of `inv` is collected.
pub open spec fn covers(inv: InventionV, defs: Seq<(Seq<char>, InventionV)>) -> bool {
    forall|k: int| 0 <= k < inv.developments.len() ==> def_names(defs).contains(#[trigger] inv.developments[k].name)
}

/// What a complete collection satisfies: names are unique, the root's and
/// every collected definition's development names are all collected, and
/// every entry comes from a spec of the root or of an earlier entry.
pub open spec fn resolved_ok(root: InventionV, defs: Seq<(Seq<char>, InventionV)>, loaded: Seq<(Seq<char>, InventionV)>) -> bool {
    &&& defs_unique(defs)
    &&& covers(root, defs)
    &&& forall|j: int| 0 <= j < defs.len() ==> covers(#[trigger] defs[j].1, defs)
    &&& forall|j: int| 0 <= j < defs.len() ==> #[trigger] provenance_ok(root, defs, loaded, j)
}

proof fn lemma_covers_grow(inv: InventionV, a: Seq<(Seq<char>, InventionV)>, b: Seq<(Seq<char>, InventionV)>)
    requires
        covers(inv, a),
        a.len() <= b.len(),
        b.take(a.len() as int) == a,
    ensures
        covers(inv, b),
{
    assert forall|k: int| 0 <= k < inv.developments.len() implies def_names(b).contains(#[trigger] inv.developments[k].name) by {
        let j = choose|j: int| 0 <= j < def_names(a).len() && def_names(a)[j] == inv.developments[k].name;
        assert(b[j] == a[j]);
        assert(def_names(b)[j] == def_names(a)[j]);
    }
}

proof fn lemma_provenance_grow(root: InventionV, a: Seq<(Seq<char>, InventionV)>, b: Seq<(Seq<char>, InventionV)>, loaded: Seq<(Seq<char>, InventionV)>, j: int)
    requires
        0 <= j < a.len(),
        provenance_ok(root, a, loaded, j),
        a.len() <= b.len(),
        b.take(a.len() as int) == a,
    ensures
        provenance_ok(root, b, loaded, j),
{
    let (f, k) = choose|f: int, k: int| #![trigger frame(root, a, f).developments[k]]
        -1 <= f < j && 0 <= k < frame(root, a, f).developments.len()
            && frame(root, a, f).developments[k].name == a[j].0
            && source_ok(frame(root, a, f).developments[k], a[j].1, loaded);
    assert(b[j] == a[j]);
    if f >= 0 {
        assert(b[f] == a[f]);
    }
    assert(frame(root, b, f) == frame(root, a, f));
}

/// Collects the definitions reachable from `doc` (the root, or entry `f`'s
/// definition) in depth-first order; a name already collected is skipped.
fn collect_definitions(
    doc: &Invention,
    Ghost(f): Ghost<int>,
    defs: &mut Vec<(String, Invention)>,
    loaded: &Vec<(String, Invention)>,
    Ghost(root): Ghost<InventionV>,
    Ghost(u): Ghost<Seq<Seq<char>>>,
) -> (r: Result<(), LoadError>)
    requires
        -1 <= f < old(defs)@.len(),
        f < 0 ==> doc.view() == root,
        f >= 0 ==> defs_view(old(defs)@)[f].1 == doc.view(),
        names_in(doc.view(), u),
        forall|i: int| 0 <= i < loaded@.len() ==> names_in(#[trigger] loaded@[i].1.view(), u),
        defs_unique(defs_view(old(defs)@)),
        forall|j: int| 0 <= j < old(defs)@.len() ==> u.contains(#[trigger] defs_view(old(defs)@)[j].0),
        forall|j: int| 0 <= j < old(defs)@.len() ==> names_in(#[trigger] defs_view(old(defs)@)[j].1, u),
        forall|j: int| 0 <= j < old(defs)@.len() ==> #[trigger] provenance_ok(root, defs_view(old(defs)@), loaded_view(loaded@), j),
        within(root, loaded_view(loaded@), doc.view()),
    ensures
        ({
            let a = defs_view(old(defs)@);
            let b = defs_view(final(defs)@);
            &&& a.len() <= b.len()
            &&& b.take(a.len() as int) == a
            &&& defs_unique(b)
            &&& forall|j: int| 0 <= j < b.len() ==> u.contains(#[trigger] b[j].0)
            &&& forall|j: int| 0 <= j < b.len() ==> names_in(#[trigger] b[j].1, u)
            &&& forall|j: int| 0 <= j < b.len() ==> #[trigger] provenance_ok(root, b, loaded_view(loaded@), j)
            &&& r is Ok ==> covers(doc.view(), b)
            &&& r is Ok ==> forall|j: int| a.len() <= j < b.len() ==> covers(#[trigger] b[j].1, b)
        }),
        r matches Err(LoadError::NeedsFile(q)) ==> forall|i: int| 0 <= i < loaded@.len() ==> loaded@[i].0@ != q@,
        r matches Err(LoadError::Invalid(m)) ==> refused(root, loaded_view(loaded@), m@),
        r matches Err(LoadError::NeedsFile(q)) ==> requested(root, loaded_view(loaded@), q@),
        inline_only(doc.view()) ==> r is Ok,
    decreases u.len() - old(defs)@.len(),
{
    let ghost a = defs_view(defs@);
    let ghost lv = loaded_view(loaded@);
    let ghost v = doc.view();
    proof {
        lemma_developments_view(doc.developments@);
        lemma_distinct_len(def_names(a), u);
    }
    let mut k: usize = 0;
    while k < doc.developments.len()
        invariant
            k <= doc.developments@.len(),
            v == doc.view(),
            v.developments.len() == doc.developments@.len(),
            a == defs_view(old(defs)@),
            a.len() == old(defs)@.len(),
            a.len() <= defs@.len(),
            defs_view(defs@).take(a.len() as int) == a,
            -1 <= f < a.len(),
            f < 0 ==> doc.view() == root,
            f >= 0 ==> a[f].1 == doc.view(),
            names_in(v, u),
            lv == loaded_view(loaded@),
            forall|i: int| 0 <= i < loaded@.len() ==> names_in(#[trigger] loaded@[i].1.view(), u),
            defs_unique(defs_view(defs@)),
            forall|j: int| 0 <= j < defs@.len() ==> u.contains(#[trigger] defs_view(defs@)[j].0),
            forall|j: int| 0 <= j < defs@.len() ==> names_in(#[trigger] defs_view(defs@)[j].1, u),
            forall|j: int| 0 <= j < defs@.len() ==> #[trigger] provenance_ok(root, defs_view(defs@), lv, j),
            forall|kk: int| 0 <= kk < k ==> def_names(defs_view(defs@)).contains(#[trigger] v.developments[kk].name),
            forall|j: int| a.len() <= j < defs@.len() ==> covers(#[trigger] defs_view(defs@)[j].1, defs_view(defs@)),
            within(root, lv, v),
        decreases doc.developments.len() - k,
    {
        proof {
            lemma_developments_view(doc.developments@);
        }
        let d = &doc.developments[k];
        let ghost dv = v.developments[k as int];
        proof {
            assert(dv.name == d.name@);
        }
        match def_index(defs, &d.name) {
            Some(i) => {
                proof {
                    assert(def_names(defs_view(defs@))[i as int] == dv.name);
                }
            },
            None => {
                let definition = match load_development_definition(doc, d, loaded) {
                    Ok(x) => x,
                    Err(e) => {
                        proof {
                            assert(!inline_only(v)) by {
                                if inline_only(v) {
                                    assert(v.developments[k as int].path is None);
                                }
                            }
                            assert(crate::builder::dev_view(*d) == dv);
                            match e {
                                LoadError::Invalid(ref m) => {
                                    assert(malformed(v, dv, m@));
                                    assert(within(root, lv, v));
                                    assert(refused(root, lv, m@));
                                },
                                LoadError::NeedsFile(ref q) => {
                                    let r0 = Err::<Invention, LoadError>(LoadError::NeedsFile(*q));
                                    assert(crate::builder::load_outcome(doc.source_path is None, dv, lv, r0));
                                    let q0 = choose|q0: Seq<char>| #[trigger] crate::builder::lookup_ok(lv, q0, r0)
                                        && (doc.source_path is None ==> q0 == dv.path->Some_0);
                                    assert(q0 == q@);
                                    assert(v.developments[k as int] == dv);
                                    assert(within(root, lv, v));
                                    assert(requested(root, lv, q@));
                                },
                            }
                        }
                        return Err(e);
                    },
                };
                let ghost before = defs_view(defs@);
                let ghost xv = definition.view();
                proof {
                    // the new entry's names lie in u, and it comes from spec k of this frame
                    assert(u.contains(dv.name));
                    assert(names_in(xv, u)) by {
                        if d.path is None && d.definition is Some {
                            assert(dv.definition == Some(d.definition->Some_0.view()));
                        } else {
                            let i = choose|i: int| 0 <= i < loaded@.len() && #[trigger] loaded@[i].1.view() == xv;
                        }
                    }
                    assert(source_ok(dv, xv, lv)) by {
                        if d.path is None && d.definition is Some {
                            assert(dv.definition == Some(d.definition->Some_0.view()));
                        } else {
                            let i = choose|i: int| 0 <= i < loaded@.len() && #[trigger] loaded@[i].1.view() == xv;
                            assert(lv[i].1 == xv);
                        }
                    }
                    lemma_distinct_len(def_names(before), u);
                }
                defs.push((copy_string(&d.name), invention_clone(&definition)));
                let ghost mid = defs_view(defs@);
                let ghost jn = before.len() as int;
                proof {
                    assert(mid =~= before.push((dv.name, xv)));
                    assert(mid.take(before.len() as int) =~= before);
                    assert(mid.take(a.len() as int) =~= a) by {
                        assert(before.take(a.len() as int) =~= a);
                    }
                    assert(defs_unique(mid)) by {
                        assert forall|i: int, j: int| 0 <= i < j < mid.len() implies mid[i].0 != mid[j].0 by {
                            if j == jn {
                                assert(before[i].0 != d.name@);
                            } else {
                                assert(mid[i] == before[i] && mid[j] == before[j]);
                            }
                        }
                    }
                    assert forall|j: int| 0 <= j < mid.len() implies #[trigger] provenance_ok(root, mid, lv, j) by {
                        if j < jn {
                            assert(mid[j] == before[j]);
                            lemma_provenance_grow(root, before, mid, lv, j);
                        } else {
                            assert(frame(root, mid, f) == v) by {
                                if f >= 0 {
                                    assert(mid[f] == a[f]);
                                }
                            }
                            assert(frame(root, mid, f).developments[k as int] == dv);
                        }
                    }
                    assert forall|j: int| 0 <= j < mid.len() implies u.contains(#[trigger] mid[j].0) by {
                        if j < jn {
                            assert(mid[j] == before[j]);
                        }
                    }
                    assert forall|j: int| 0 <= j < mid.len() implies names_in(#[trigger] mid[j].1, u) by {
                        if j < jn {
                            assert(mid[j] == before[j]);
                        }
                    }
                    lemma_distinct_len(def_names(mid), u);
                }
                proof {
                    if d.path is None && d.definition is Some {
                        assert(dv.definition == Some(d.definition->Some_0.view()));
                    } else {
                        let i = choose|i: int| 0 <= i < loaded@.len() && #[trigger] loaded@[i].1.view() == xv;
                        assert(lv[i].1 == xv);
                    }
                    lemma_within_step(root, lv, v, k as int, xv);
                }
                let sub = collect_definitions(&definition, Ghost(jn), defs, loaded, Ghost(root), Ghost(u));
                let ghost after = defs_view(defs@);
                proof {
                    assert(after.take(a.len() as int) =~= a) by {
                        assert(after.take(mid.len() as int) == mid);
                        assert forall|i: int| 0 <= i < a.len() implies after[i] == a[i] by {
                            assert(after[i] == mid[i]);
                            assert(mid[i] == before[i]);
                        }
                    }
                }
                match sub {
                    Err(e) => {
                        proof {
                            assert(!inline_only(v)) by {
                                if inline_only(v) {
                                    assert(v.developments[k as int].path is None);
                                    assert(dv.definition == Some(d.definition->Some_0.view()));
                                }
                            }
                        }
                        return Err(e);
                    },
                    Ok(()) => {},
                }
                proof {
                    assert(after[jn] == mid[jn]);
                    assert(def_names(after)[jn] == dv.name);
                    assert forall|kk: int| 0 <= kk < k implies def_names(after).contains(#[trigger] v.developments[kk].name) by {
                        let j = choose|j: int| 0 <= j < def_names(before).len() && def_names(before)[j] == v.developments[kk].name;
                        assert(after[j] == mid[j]);
                        assert(mid[j] == before[j]);
                        assert(def_names(after)[j] == v.developments[kk].name);
                    }
                    assert forall|j: int| a.len() <= j < after.len() implies covers(#[trigger] after[j].1, after) by {
                        if j < jn {
                            assert(after[j] == before[j]);
                            assert(after.take(before.len() as int) =~= before) by {
                                assert forall|i: int| 0 <= i < before.len() implies after[i] == before[i] by {
                                    assert(after[i] == mid[i]);
                                }
                            }
                            lemma_covers_grow(before[j].1, before, after);
                        }
                    }
                }
            },
        }
        k = k + 1;
    }
    proof {
        assert forall|kk: int| 0 <= kk < v.developments.len() implies def_names(defs_view(defs@)).contains(#[trigger] v.developments[kk].name) by {
        }
    }
    Ok(())
}

impl DevelopmentDefinitions {
    /// Loads every development definition reachable from a document,
    /// including path-based definitions nested inside other definitions. A
    /// name already collected is skipped, which guards against definition
    /// cycles. Documents read from disk so far are in `loaded`, keyed by
    /// resolved path; one still missing is asked for with `NeedsFile`.
    pub fn resolve(document: &Invention, loaded: &Vec<(String, Invention)>) -> (r: Result<DevelopmentDefinitions, LoadError>)
        ensures
            r matches Ok(d) ==> resolved_ok(document.view(), defs_view(d.definitions@), loaded_view(loaded@)),
            r matches Err(LoadError::NeedsFile(q)) ==> forall|i: int| 0 <= i < loaded@.len() ==> loaded@[i].0@ != q@,
            r matches Err(LoadError::Invalid(m)) ==> refused(document.view(), loaded_view(loaded@), m@),
            r matches Err(LoadError::NeedsFile(q)) ==> requested(document.view(), loaded_view(loaded@), q@),
            all_paths_loaded(document.view(), loaded_view(loaded@)) ==> !(r matches Err(LoadError::NeedsFile(_))),
            inline_only(document.view()) ==> r is Ok,
    {
        let mut u: Vec<String> = Vec::new();
        gather_names(document, &mut u);
        let mut i: usize = 0;
        while i < loaded.len()
            invariant
                i <= loaded@.len(),
                names_in(document.view(), crate::topology::names(u@)),
                forall|j: int| 0 <= j < i ==> names_in(#[trigger] loaded@[j].1.view(), crate::topology::names(u@)),
            decreases loaded.len() - i,
        {
            let ghost before = crate::topology::names(u@);
            gather_names(&loaded[i].1, &mut u);
            proof {
                lemma_names_in_mono(document.view(), before, crate::topology::names(u@));
                assert forall|j: int| 0 <= j < i + 1 implies names_in(#[trigger] loaded@[j].1.view(), crate::topology::names(u@)) by {
                    if j < i {
                        lemma_names_in_mono(loaded@[j].1.view(), before, crate::topology::names(u@));
                    }
                }
            }
            i = i + 1;
        }
        let mut definitions: Vec<(String, Invention)> = Vec::new();
        proof {
            assert(nested(document.view(), document.view()));
        }
        match collect_definitions(document, Ghost(-1), &mut definitions, loaded, Ghost(document.view()), Ghost(crate::topology::names(u@))) {
            Ok(()) => {
                proof {
                    assert(defs_view(definitions@).take(0) =~= Seq::<(Seq<char>, InventionV)>::empty());
                }
                Ok(DevelopmentDefinitions { definitions })
            },
            Err(e) => {
                proof {
                    if let LoadError::NeedsFile(ref q) = e {
                        let lv = loaded_view(loaded@);
                        if all_paths_loaded(document.view(), lv) {
                            lemma_requested_loaded(document.view(), lv, q@);
                            let i = choose|i: int| 0 <= i < lv.len() && lv[i].0 == q@;
                            assert(lv[i].0 == loaded@[i].0@);
                        }
                    }
                }
                Err(e)
            },
        }
    }
}

} // verus!
