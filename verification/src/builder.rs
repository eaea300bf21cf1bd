//! Building an invention: the module-type registry, document validation,
//! where development definitions come from, and path resolution against
//! the document's own location.

use vstd::prelude::*;
use crate::invention::{
    DevelopmentSpec, DevelopmentV, Invention, InventionV, copy_string, developments_view, invention_clone,
    lemma_developments_view, opt_view,
};
use crate::text::{cat3, chars_of, push_str, str_equal, string_of};

verus! {

// ---------------------------------------------------------------------------
// Registry and builder

/// The module types a registry can build, in registration order.
pub struct ModuleRegistry {
    pub types: Vec<String>,
}

impl ModuleRegistry {
    /// A registry with no types.
    pub fn new() -> (r: Self)
        ensures
            r.types@.len() == 0,
    {
        ModuleRegistry { types: Vec::new() }
    }

    /// Whether `module_type` is registered.
    pub fn has_type(&self, module_type: &str) -> (r: bool)
        ensures
            r == crate::topology::names(self.types@).contains(module_type@),
    {
        let mut i: usize = 0;
        while i < self.types.len()
            invariant
                i <= self.types@.len(),
                forall|k: int| 0 <= k < i ==> self.types@[k]@ != module_type@,
            decreases self.types.len() - i,
        {
            if str_equal(self.types[i].as_str(), module_type) {
                proof {
                    assert(crate::topology::names(self.types@)[i as int] == module_type@);
                }
                return true;
            }
            i = i + 1;
        }
        proof {
            if crate::topology::names(self.types@).contains(module_type@) {
                let k = choose|k: int| 0 <= k < self.types@.len() && crate::topology::names(self.types@)[k] == module_type@;
                assert(self.types@[k]@ == module_type@);
            }
        }
        false
    }

    /// Registers `module_type`; a type registered again stays where it was.
    pub fn register(&mut self, module_type: &String)
        ensures
            crate::topology::names(old(self).types@).contains(module_type@) ==> final(self).types@ == old(self).types@,
            !crate::topology::names(old(self).types@).contains(module_type@)
                ==> crate::topology::names(final(self).types@) == crate::topology::names(old(self).types@).push(module_type@),
    {
        if !self.has_type(module_type.as_str()) {
            self.types.push(copy_string(module_type));
            proof {
                assert(crate::topology::names(self.types@) =~= crate::topology::names(old(self).types@).push(module_type@));
            }
        }
    }
}

/// Invention builder that uses named port routing: modules are connected
/// by explicit port names and built from their registered type names.
pub struct InventionBuilder {
    pub sample_rate: u32,
    pub registry: ModuleRegistry,
    /// Development names already registered, shared by nested builds so a
    /// development is registered once.
    pub registered: Vec<String>,
}

impl InventionBuilder {
    /// A builder at `sample_rate` with an empty registry.
    pub fn new(sample_rate: u32) -> (r: Self)
        ensures
            r.sample_rate == sample_rate,
            r.registry.types@.len() == 0,
            r.registered@.len() == 0,
    {
        InventionBuilder { sample_rate, registry: ModuleRegistry::new(), registered: Vec::new() }
    }

    /// A builder at `sample_rate` with a custom registry.
    pub fn with_registry(sample_rate: u32, registry: ModuleRegistry) -> (r: Self)
        ensures
            r.sample_rate == sample_rate,
            r.registry == registry,
            r.registered@.len() == 0,
    {
        InventionBuilder { sample_rate, registry, registered: Vec::new() }
    }

    /// A builder sharing the given registered-developments list.
    pub fn with_registry_and_registered(sample_rate: u32, registry: ModuleRegistry, registered: Vec<String>) -> (r: Self)
        ensures
            r.sample_rate == sample_rate,
            r.registry == registry,
            r.registered == registered,
    {
        InventionBuilder { sample_rate, registry, registered }
    }
}

// ---------------------------------------------------------------------------
// Validation

/// Whether `id` names a module of the document.
pub open spec fn has_module_id(inv: InventionV, id: Seq<char>) -> bool {
    exists|m: int| 0 <= m < inv.modules.len() && inv.modules[m].id == id
}

/// The first problem with the document's connections, in order: an
/// unknown source, an unknown destination, a missing source port, a
/// missing destination port.
pub open spec fn connection_problem(inv: InventionV, k: int) -> Option<Seq<char>>
    decreases inv.connections.len() - k,
{
    if k < 0 || k >= inv.connections.len() {
        None
    } else {
        let c = inv.connections[k];
        if !has_module_id(inv, c.from) {
            Some("Unknown source module: "@ + c.from)
        } else if !has_module_id(inv, c.to) {
            Some("Unknown destination module: "@ + c.to)
        } else if c.from_port is None {
            Some("Missing from_port in connection from "@ + c.from)
        } else if c.to_port is None {
            Some("Missing to_port in connection to "@ + c.to)
        } else {
            connection_problem(inv, k + 1)
        }
    }
}

fn module_id_known(inv: &Invention, id: &String) -> (r: bool)
    ensures
        r == has_module_id(inv.view(), id@),
{
    let mut m: usize = 0;
    while m < inv.modules.len()
        invariant
            m <= inv.modules@.len(),
            inv.view().modules.len() == inv.modules@.len(),
            forall|j: int| 0 <= j < m ==> inv.view().modules[j].id != id@,
        decreases inv.modules.len() - m,
    {
        if str_equal(inv.modules[m].id.as_str(), id.as_str()) {
            proof {
                assert(inv.view().modules[m as int].id == id@);
            }
            return true;
        }
        proof {
            assert(inv.view().modules[m as int].id == inv.modules@[m as int].id@);
        }
        m = m + 1;
    }
    false
}

impl InventionBuilder {
    /// Checks that every connection names known modules and both ports.
    pub fn validate_invention(&self, invention: &Invention) -> (r: Result<(), String>)
        ensures
            match connection_problem(invention.view(), 0) {
                None => r is Ok,
                Some(m) => r matches Err(e) && e@ == m,
            },
    {
        let ghost v = invention.view();
        let mut k: usize = 0;
        while k < invention.connections.len()
            invariant
                k <= invention.connections@.len(),
                v == invention.view(),
                v.connections.len() == invention.connections@.len(),
                connection_problem(v, 0) == connection_problem(v, k as int),
            decreases invention.connections.len() - k,
        {
            let c = &invention.connections[k];
            proof {
                assert(v.connections[k as int] == c.view());
            }
            if !module_id_known(invention, &c.from) {
                return Err(string_of(&crate::text::cat2("Unknown source module: ", &chars_of(c.from.as_str()))));
            }
            if !module_id_known(invention, &c.to) {
                return Err(string_of(&crate::text::cat2("Unknown destination module: ", &chars_of(c.to.as_str()))));
            }
            if c.from_port.is_none() {
                return Err(string_of(&crate::text::cat2("Missing from_port in connection from ", &chars_of(c.from.as_str()))));
            }
            if c.to_port.is_none() {
                return Err(string_of(&crate::text::cat2("Missing to_port in connection to ", &chars_of(c.to.as_str()))));
            }
            k = k + 1;
        }
        Ok(())
    }
}

// ---------------------------------------------------------------------------
// Paths

/// Whether `p` is an absolute path (`Path::is_absolute`); what counts as
/// absolute depends on the platform, so nothing is stated of the result.
#[verifier::external_body]
fn path_is_absolute(p: &String) -> (r: bool) {
    std::path::Path::new(p.as_str()).is_absolute()
}

/// The directory part of `p` (`Path::parent`), or `None` for a root or an
/// empty path. The split is the platform's, so nothing is stated of it.
#[verifier::external_body]
fn path_parent(p: &String) -> (r: Option<String>) {
    match std::path::Path::new(p.as_str()).parent() {
        Some(q) => Some(q.to_string_lossy().into_owned()),
        None => None,
    }
}

/// `p` joined onto `base` (`Path::join`), with the platform's separator;
/// nothing is stated of the result.
#[verifier::external_body]
fn path_join(base: &String, p: &String) -> (r: String) {
    std::path::Path::new(base.as_str()).join(p.as_str()).to_string_lossy().into_owned()
}

/// The error for a relative path in a document that was not read from a
/// file.
pub open spec fn relative_path_msg(kind: Seq<char>, path: Seq<char>) -> Seq<char> {
    "Relative "@ + kind + " path '"@ + path + "' requires the parent invention to be loaded from a file"@
}

/// Resolves `path` against the directory of `source_path`. An absolute
/// path is kept as it is; a relative one needs a source path, and is then
/// joined onto that path's directory (`.` when it has none).
fn resolve_relative_path(kind: &str, source_path: &Option<String>, path: &String) -> (r: Result<String, String>)
    ensures
        source_path is Some ==> r is Ok,
        r matches Err(e) ==> source_path is None && e@ == relative_path_msg(kind@, path@),
        source_path is None ==> (r matches Ok(x) ==> x@ == path@),
{
    if path_is_absolute(path) {
        return Ok(copy_string(path));
    }
    match source_path {
        None => {
            let mut m: Vec<char> = chars_of("Relative ");
            push_str(&mut m, kind);
            push_str(&mut m, " path '");
            push_str(&mut m, path.as_str());
            push_str(&mut m, "' requires the parent invention to be loaded from a file");
            proof {
                assert(m@ =~= relative_path_msg(kind@, path@));
            }
            Err(string_of(&m))
        },
        Some(s) => {
            let base = match path_parent(s) {
                Some(b) => b,
                None => string_of(&chars_of(".")),
            };
            Ok(path_join(&base, path))
        },
    }
}

/// Resolves a development's `path` against the invention's source path.
pub fn resolve_development_path(source_path: &Option<String>, path: &String) -> (r: Result<String, String>)
    ensures
        source_path is Some ==> r is Ok,
        r matches Err(e) ==> source_path is None && e@ == relative_path_msg("development"@, path@),
        source_path is None ==> (r matches Ok(x) ==> x@ == path@),
{
    resolve_relative_path("development", source_path, path)
}

/// Resolves an asset's `path` against the invention's source path.
pub fn resolve_asset_path(source_path: &Option<String>, path: &String) -> (r: Result<String, String>)
    ensures
        source_path is Some ==> r is Ok,
        r matches Err(e) ==> source_path is None && e@ == relative_path_msg("asset"@, path@),
        source_path is None ==> (r matches Ok(x) ==> x@ == path@),
{
    resolve_relative_path("asset", source_path, path)
}


/// Whether the path is an `http://` or `https://` URL.
pub open spec fn is_url(path: Seq<char>) -> bool {
    "https://"@.is_prefix_of(path) || "http://"@.is_prefix_of(path)
}

fn has_prefix(s: &String, prefix: &str) -> (r: bool)
    ensures
        r == prefix@.is_prefix_of(s@),
{
    let v = chars_of(s.as_str());
    let p = chars_of(prefix);
    if p.len() > v.len() {
        return false;
    }
    let mut i: usize = 0;
    while i < p.len()
        invariant
            i <= p@.len(),
            p@.len() <= v@.len(),
            v@ == s@,
            p@ == prefix@,
            forall|j: int| 0 <= j < i ==> v@[j] == p@[j],
        decreases p.len() - i,
    {
        if v[i] != p[i] {
            proof {
                assert(v@.subrange(0, p@.len() as int)[i as int] != p@[i as int]);
            }
            return false;
        }
        i = i + 1;
    }
    proof {
        assert(v@.subrange(0, p@.len() as int) =~= p@);
    }
    true
}

/// Resolves a local audio asset path: URLs and absolute paths pass through;
/// a relative path is joined onto the invention file's directory when one
/// is known, and kept as authored when not.
pub fn resolve_local(path: &String, base_dir: &Option<String>) -> (r: String)
    ensures
        is_url(path@) ==> r@ == path@,
        base_dir is None ==> r@ == path@,
{
    if has_prefix(path, "https://") || has_prefix(path, "http://") {
        return copy_string(path);
    }
    if path_is_absolute(path) {
        return copy_string(path);
    }
    match base_dir {
        Some(base) => path_join(base, path),
        None => copy_string(path),
    }
}

// ---------------------------------------------------------------------------
// Development definitions

/// The error for a development that sets both a path and a definition.
pub open spec fn both_sources_msg(name: Seq<char>) -> Seq<char> {
    "Development '"@ + name + "' must set either 'path' or 'definition', not both"@
}

/// The error for a development that sets neither.
pub open spec fn no_source_msg(name: Seq<char>) -> Seq<char> {
    "Development '"@ + name + "' must set either 'path' or 'definition'"@
}

/// Why a development's definition could not be had (yet).
#[derive(Debug)]
pub enum LoadError {
    /// The document at this resolved path has not been read yet: read it,
    /// add it to the loaded documents, and ask again.
    NeedsFile(String),
    /// The development spec is malformed, or its path cannot be resolved.
    Invalid(String),
}

/// Loaded documents as plain values: resolved path, document.
pub open spec fn loaded_view(v: Seq<(String, Invention)>) -> Seq<(Seq<char>, InventionV)> {
    Seq::new(v.len(), |i: int| (v[i].0@, v[i].1.view()))
}

/// The first loaded document from position `i` on keyed by `path`, if any.
pub open spec fn first_loaded_from(loaded: Seq<(Seq<char>, InventionV)>, path: Seq<char>, i: int) -> Option<int>
    decreases loaded.len() - i,
{
    if i < 0 || i >= loaded.len() {
        None
    } else if loaded[i].0 == path {
        Some(i)
    } else {
        first_loaded_from(loaded, path, i + 1)
    }
}

/// The first loaded document keyed by `path`, if any.
pub open spec fn first_loaded(loaded: Seq<(Seq<char>, InventionV)>, path: Seq<char>) -> Option<int> {
    first_loaded_from(loaded, path, 0)
}

/// What looking `path` up among the loaded documents gives: the first
/// document keyed by it, or a request for the file.
pub open spec fn lookup_ok(loaded: Seq<(Seq<char>, InventionV)>, path: Seq<char>, r: Result<Invention, LoadError>) -> bool {
    match first_loaded(loaded, path) {
        Some(i) => r matches Ok(x) && x.view() == loaded[i].1,
        None => r matches Err(LoadError::NeedsFile(q)) && q@ == path,
    }
}

proof fn lemma_first_loaded_from(loaded: Seq<(Seq<char>, InventionV)>, path: Seq<char>, i: int)
    requires
        0 <= i,
    ensures
        first_loaded_from(loaded, path, i) matches Some(j) ==> i <= j < loaded.len() && loaded[j].0 == path,
        first_loaded_from(loaded, path, i) is None ==> forall|j: int| i <= j < loaded.len() ==> loaded[j].0 != path,
    decreases loaded.len() - i,
{
    if i < loaded.len() && loaded[i].0 != path {
        lemma_first_loaded_from(loaded, path, i + 1);
    }
}

/// What a lookup gives is a loaded document, or a request for a path that
/// none was read from.
proof fn lemma_lookup_ok(loaded: Seq<(String, Invention)>, q: Seq<char>, r: Result<Invention, LoadError>)
    requires
        lookup_ok(loaded_view(loaded), q, r),
    ensures
        r matches Ok(x) ==> exists|i: int| 0 <= i < loaded.len() && #[trigger] loaded[i].1.view() == x.view(),
        r matches Err(LoadError::NeedsFile(p)) ==> forall|i: int| 0 <= i < loaded.len() ==> loaded[i].0@ != p@,
        r matches Err(LoadError::Invalid(_)) ==> false,
{
    let lv = loaded_view(loaded);
    lemma_first_loaded_from(lv, q, 0);
    match first_loaded(lv, q) {
        Some(i) => {
            assert(lv[i].1 == loaded[i].1.view());
        },
        None => {
            assert forall|i: int| 0 <= i < loaded.len() implies loaded[i].0@ != q by {
                assert(lv[i].0 == loaded[i].0@);
            }
        },
    }
}

/// Looks a resolved path up among the documents read so far: the first
/// one read from it, or `NeedsFile` with the path when none was.
pub fn lookup_loaded(loaded: &Vec<(String, Invention)>, resolved: &String) -> (r: Result<Invention, LoadError>)
    ensures
        lookup_ok(loaded_view(loaded@), resolved@, r),
{
    let ghost lv = loaded_view(loaded@);
    let mut i: usize = 0;
    while i < loaded.len()
        invariant
            i <= loaded@.len(),
            lv == loaded_view(loaded@),
            first_loaded(lv, resolved@) == first_loaded_from(lv, resolved@, i as int),
        decreases loaded.len() - i,
    {
        proof {
            assert(lv[i as int].0 == loaded@[i as int].0@);
        }
        if str_equal(loaded[i].0.as_str(), resolved.as_str()) {
            let x = invention_clone(&loaded[i].1);
            proof {
                assert(lv[i as int].1 == loaded@[i as int].1.view());
            }
            return Ok(x);
        }
        i = i + 1;
    }
    Err(LoadError::NeedsFile(copy_string(resolved)))
}

/// Loads the document for a development's `path`: resolved against the
/// invention's source path, then looked up among the documents read so far.
fn load_from_path(source_path: &Option<String>, path: &String, loaded: &Vec<(String, Invention)>) -> (r: Result<Invention, LoadError>)
    ensures
        r matches Err(LoadError::Invalid(m)) ==> source_path is None && m@ == relative_path_msg("development"@, path@),
        source_path is Some ==> !(r matches Err(LoadError::Invalid(_))),
        !(r matches Err(LoadError::Invalid(_))) ==> exists|q: Seq<char>|
            #[trigger] lookup_ok(loaded_view(loaded@), q, r) && (source_path is None ==> q == path@),
{
    match resolve_development_path(source_path, path) {
        Err(m) => Err(LoadError::Invalid(m)),
        Ok(resolved) => {
            let r = lookup_loaded(loaded, &resolved);
            proof {
                assert(lookup_ok(loaded_view(loaded@), resolved@, r));
            }
            r
        },
    }
}

/// A development spec as plain values.
pub open spec fn dev_view(d: DevelopmentSpec) -> DevelopmentV {
    DevelopmentV {
        name: d.name@,
        path: crate::invention::opt_view(d.path),
        definition: match d.definition {
            Some(b) => Some(b.view()),
            None => None,
        },
    }
}

/// What loading development `d` of a document (read from a file or not)
/// gives: its inline definition; the error for a spec that sets both
/// sources or neither; for a path, the error for a relative path in a
/// document not read from a file, or the lookup of the resolved path among
/// the loaded documents (the authored path itself when the document was not
/// read from a file).
pub open spec fn load_outcome(source_none: bool, d: DevelopmentV, loaded: Seq<(Seq<char>, InventionV)>, r: Result<Invention, LoadError>) -> bool {
    match (d.path, d.definition) {
        (None, Some(x)) => r matches Ok(y) && y.view() == x,
        (Some(_), Some(_)) => r matches Err(LoadError::Invalid(m)) && m@ == both_sources_msg(d.name),
        (None, None) => r matches Err(LoadError::Invalid(m)) && m@ == no_source_msg(d.name),
        (Some(p), None) => match r {
            Err(LoadError::Invalid(m)) => source_none && m@ == relative_path_msg("development"@, p),
            _ => exists|q: Seq<char>| #[trigger] lookup_ok(loaded, q, r) && (source_none ==> q == p),
        },
    }
}

/// Loads a development's definition: the inline one, or the document read
/// from its path resolved against the invention's own path. Documents read
/// so far are in `loaded`, keyed by resolved path; one that is not yet
/// there is asked for with `NeedsFile`.
pub fn load_development_definition(invention: &Invention, development: &DevelopmentSpec, loaded: &Vec<(String, Invention)>)
    -> (r: Result<Invention, LoadError>)
    ensures
        development.path is None && development.definition is Some
            ==> (r matches Ok(x) && x.view() == development.definition->Some_0.view()),
        development.path is Some && development.definition is Some
            ==> (r matches Err(LoadError::Invalid(m)) && m@ == both_sources_msg(development.name@)),
        development.path is None && development.definition is None
            ==> (r matches Err(LoadError::Invalid(m)) && m@ == no_source_msg(development.name@)),
        development.path is Some && development.definition is None ==> {
            &&& r matches Ok(x) ==> exists|i: int| 0 <= i < loaded@.len() && #[trigger] loaded@[i].1.view() == x.view()
            &&& r matches Err(LoadError::NeedsFile(q)) ==> forall|i: int| 0 <= i < loaded@.len() ==> loaded@[i].0@ != q@
            &&& r matches Err(LoadError::Invalid(m)) ==> invention.source_path is None
                && m@ == relative_path_msg("development"@, development.path->Some_0@)
            &&& !(r matches Err(LoadError::Invalid(_))) ==> exists|q: Seq<char>|
                #[trigger] lookup_ok(loaded_view(loaded@), q, r)
                && (invention.source_path is None ==> q == development.path->Some_0@)
            &&& invention.source_path is Some ==> !(r matches Err(LoadError::Invalid(_)))
        },
        load_outcome(invention.source_path is None, dev_view(*development), loaded_view(loaded@), r),
{
    match (&development.path, &development.definition) {
        (Some(path), None) => {
            let r = load_from_path(&invention.source_path, path, loaded);
            proof {
                if !(r matches Err(LoadError::Invalid(_))) {
                    let q = choose|q: Seq<char>| #[trigger] lookup_ok(loaded_view(loaded@), q, r)
                        && (invention.source_path is None ==> q == path@);
                    lemma_lookup_ok(loaded@, q, r);
                }
            }
            r
        },
        (None, Some(definition)) => Ok(invention_clone(definition)),
        (Some(_), Some(_)) => {
            let m = cat3("Development '", &chars_of(development.name.as_str()), "' must set either 'path' or 'definition', not both");
            Err(LoadError::Invalid(string_of(&m)))
        },
        (None, None) => {
            let m = cat3("Development '", &chars_of(development.name.as_str()), "' must set either 'path' or 'definition'");
            Err(LoadError::Invalid(string_of(&m)))
        },
    }
}


// ---------------------------------------------------------------------------
// Registering developments

/// The names among the first `k` developments that are neither already
/// registered nor repeated, in order.
pub open spec fn fresh_names(registered: Seq<Seq<char>>, devs: Seq<DevelopmentV>, k: int) -> Seq<Seq<char>>
    decreases k,
{
    if k <= 0 || k > devs.len() {
        Seq::empty()
    } else {
        let f = fresh_names(registered, devs, k - 1);
        if registered.contains(devs[k - 1].name) || f.contains(devs[k - 1].name) {
            f
        } else {
            f.push(devs[k - 1].name)
        }
    }
}

/// A registered definition comes from a development of that name: its
/// inline definition, or one of the loaded documents.
pub open spec fn registered_from(devs: Seq<DevelopmentV>, name: Seq<char>, def: InventionV, loaded: Seq<(Seq<char>, InventionV)>) -> bool {
    exists|k: int| #![trigger devs[k]] 0 <= k < devs.len() && devs[k].name == name
        && match (devs[k].path, devs[k].definition) {
            (None, Some(x)) => def == x,
            (Some(_), None) => exists|i: int| 0 <= i < loaded.len() && loaded[i].1 == def,
            _ => false,
        }
}

impl InventionBuilder {
    /// Registers each of the invention's developments as a module type,
    /// once per name: a name already registered (here or by an enclosing
    /// build) is skipped, and is marked registered before its definition
    /// is loaded. Returns the definitions registered, by name, for their
    /// factories; stops at the first definition that cannot be loaded.
    pub fn register_developments(&mut self, invention: &Invention, loaded: &Vec<(String, Invention)>)
        -> (r: Result<Vec<(String, Invention)>, LoadError>)
        ensures
            final(self).sample_rate == old(self).sample_rate,
            ({
                let reg0 = crate::topology::names(old(self).registered@);
                let fresh = fresh_names(reg0, invention.view().developments, invention.view().developments.len() as int);
                &&& r is Ok ==> crate::topology::names(final(self).registered@) == reg0 + fresh
                &&& r matches Ok(list) ==> Seq::new(list@.len(), |i: int| list@[i].0@) == fresh
                &&& r matches Ok(list) ==> forall|i: int| 0 <= i < list@.len() ==> registered_from(
                    invention.view().developments, #[trigger] list@[i].0@, list@[i].1.view(), loaded_view(loaded@))
                &&& r is Ok ==> forall|i: int| 0 <= i < fresh.len() ==> crate::topology::names(final(self).registry.types@).contains(#[trigger] fresh[i])
                &&& forall|x: Seq<char>| crate::topology::names(old(self).registry.types@).contains(x)
                    ==> crate::topology::names(final(self).registry.types@).contains(x)
                &&& forall|x: Seq<char>| crate::topology::names(final(self).registry.types@).contains(x)
                    ==> crate::topology::names(old(self).registry.types@).contains(x) || fresh.contains(x)
                &&& r is Err ==> crate::topology::names(final(self).registered@).len() <= (reg0 + fresh).len()
                &&& r is Err ==> crate::topology::names(final(self).registered@) == (reg0 + fresh).take(
                    crate::topology::names(final(self).registered@).len() as int)
            }),
            r matches Err(LoadError::Invalid(m)) ==> (exists|n: Seq<char>| m@ == both_sources_msg(n))
                || (exists|n: Seq<char>| m@ == no_source_msg(n))
                || (exists|p: Seq<char>| m@ == relative_path_msg("development"@, p)),
            r matches Err(LoadError::NeedsFile(q)) ==> forall|i: int| 0 <= i < loaded@.len() ==> loaded@[i].0@ != q@,
            r matches Err(e) ==> ({
                let reg0 = crate::topology::names(old(self).registered@);
                let devs = invention.view().developments;
                exists|k: int| #![trigger devs[k]] 0 <= k < devs.len()
                    && !(reg0 + fresh_names(reg0, devs, k)).contains(devs[k].name)
                    && crate::topology::names(final(self).registered@) == reg0 + fresh_names(reg0, devs, k + 1)
                    && load_outcome(invention.source_path is None, devs[k], loaded_view(loaded@), Err::<Invention, LoadError>(e))
            }),
            (forall|k: int| 0 <= k < invention.view().developments.len() ==> (#[trigger] invention.view().developments[k]).path is None
                && invention.view().developments[k].definition is Some) ==> r is Ok,
    {
        let ghost reg0 = crate::topology::names(self.registered@);
        let ghost types0 = crate::topology::names(self.registry.types@);
        let ghost v = invention.view();
        let ghost n = v.developments.len() as int;
        let ghost all = reg0 + fresh_names(reg0, v.developments, n);
        proof {
            lemma_developments_view(invention.developments@);
            lemma_fresh_prefix(reg0, v.developments, 0, n);
        }
        let mut list: Vec<(String, Invention)> = Vec::new();
        let mut k: usize = 0;
        while k < invention.developments.len()
            invariant
                k <= invention.developments@.len(),
                v == invention.view(),
                n == v.developments.len(),
                v.developments.len() == invention.developments@.len(),
                reg0 == crate::topology::names(old(self).registered@),
                types0 == crate::topology::names(old(self).registry.types@),
                self.sample_rate == old(self).sample_rate,
                all == reg0 + fresh_names(reg0, v.developments, n),
                crate::topology::names(self.registered@) == reg0 + fresh_names(reg0, v.developments, k as int),
                (reg0 + fresh_names(reg0, v.developments, k as int)) == all.take((reg0 + fresh_names(reg0, v.developments, k as int)).len() as int),
                (reg0 + fresh_names(reg0, v.developments, k as int)).len() <= all.len(),
                Seq::new(list@.len(), |i: int| list@[i].0@) == fresh_names(reg0, v.developments, k as int),
                forall|i: int| 0 <= i < list@.len() ==> registered_from(v.developments, #[trigger] list@[i].0@, list@[i].1.view(), loaded_view(loaded@)),
                forall|i: int| 0 <= i < fresh_names(reg0, v.developments, k as int).len()
                    ==> crate::topology::names(self.registry.types@).contains(#[trigger] fresh_names(reg0, v.developments, k as int)[i]),
                forall|x: Seq<char>| types0.contains(x) ==> crate::topology::names(self.registry.types@).contains(x),
                forall|x: Seq<char>| crate::topology::names(self.registry.types@).contains(x)
                    ==> types0.contains(x) || fresh_names(reg0, v.developments, k as int).contains(x),
            decreases invention.developments.len() - k,
        {
            proof {
                lemma_developments_view(invention.developments@);
                lemma_fresh_prefix(reg0, v.developments, k as int, n);
                lemma_fresh_prefix(reg0, v.developments, k + 1, n);
            }
            let d = &invention.developments[k];
            let ghost dv = v.developments[k as int];
            let ghost f = fresh_names(reg0, v.developments, k as int);
            proof {
                assert(dv.name == d.name@);
                assert((reg0 + f).contains(dv.name) <==> (reg0.contains(dv.name) || f.contains(dv.name))) by {
                    if (reg0 + f).contains(dv.name) {
                        let i = choose|i: int| 0 <= i < (reg0 + f).len() && (reg0 + f)[i] == dv.name;
                        if i < reg0.len() {
                            assert(reg0[i] == dv.name);
                        } else {
                            assert(f[i - reg0.len()] == dv.name);
                        }
                    }
                    if reg0.contains(dv.name) {
                        let i = choose|i: int| 0 <= i < reg0.len() && reg0[i] == dv.name;
                        assert((reg0 + f)[i] == dv.name);
                    }
                    if f.contains(dv.name) {
                        let i = choose|i: int| 0 <= i < f.len() && f[i] == dv.name;
                        assert((reg0 + f)[reg0.len() + i] == dv.name);
                    }
                }
            }
            if !has_text(&self.registered, &d.name) {
                let ghost before = crate::topology::names(self.registered@);
                self.registered.push(copy_string(&d.name));
                proof {
                    assert(crate::topology::names(self.registered@) =~= before.push(d.name@));
                    assert(reg0 + f.push(dv.name) =~= (reg0 + f).push(dv.name));
                }
                let definition = match load_development_definition(invention, d, loaded) {
                    Ok(x) => x,
                    Err(e) => {
                        proof {
                            match e {
                                LoadError::Invalid(ref m) => {
                                    if d.path is Some && d.definition is Some {
                                        assert(m@ == both_sources_msg(d.name@));
                                    } else if d.path is None && d.definition is None {
                                        assert(m@ == no_source_msg(d.name@));
                                    } else {
                                        assert(m@ == relative_path_msg("development"@, d.path->Some_0@));
                                    }
                                },
                                _ => {},
                            }
                            assert(dev_view(*d) == dv);
                            assert(load_outcome(invention.source_path is None, v.developments[k as int], loaded_view(loaded@), Err::<Invention, LoadError>(e)));
                            assert(!(reg0 + f).contains(v.developments[k as int].name));
                            assert(crate::topology::names(self.registered@) == reg0 + fresh_names(reg0, v.developments, k + 1));
                            let fnn = fresh_names(reg0, v.developments, n);
                            assert forall|x: Seq<char>| f.contains(x) implies fnn.contains(x) by {
                                let i = choose|i: int| 0 <= i < f.len() && f[i] == x;
                                assert((reg0 + f)[reg0.len() + i] == x);
                                assert(all[reg0.len() + i] == x);
                                assert(fnn[i] == x);
                            }
                        }
                        return Err(e);
                    },
                };
                let ghost xv = definition.view();
                proof {
                    assert(registered_from(v.developments, d.name@, xv, loaded_view(loaded@))) by {
                        assert(dv.definition == match d.definition {
                            Some(b) => Some(b.view()),
                            None => None,
                        });
                        if d.path is Some && d.definition is None {
                            let i = choose|i: int| 0 <= i < loaded@.len() && #[trigger] loaded@[i].1.view() == xv;
                            assert(loaded_view(loaded@)[i].1 == xv);
                        }
                        assert(v.developments[k as int] == dv);
                    }
                }
                let ghost types_before = crate::topology::names(self.registry.types@);
                self.registry.register(&d.name);
                let ghost list_before = list@;
                list.push((copy_string(&d.name), definition));
                proof {
                    let f1 = fresh_names(reg0, v.developments, k + 1);
                    assert(f1 == f.push(dv.name));
                    assert(Seq::new(list@.len(), |i: int| list@[i].0@) =~= f1) by {
                        assert(Seq::new(list_before.len(), |i: int| list_before[i].0@) == f);
                        assert forall|i: int| 0 <= i < list@.len() implies Seq::new(list@.len(), |i: int| list@[i].0@)[i] == f1[i] by {
                            if i < list_before.len() {
                                assert(list@[i] == list_before[i]);
                                assert(Seq::new(list_before.len(), |i: int| list_before[i].0@)[i] == f[i]);
                            }
                        }
                    }
                    assert forall|i: int| 0 <= i < list@.len() implies registered_from(v.developments, #[trigger] list@[i].0@, list@[i].1.view(), loaded_view(loaded@)) by {
                        if i < list_before.len() {
                            assert(list@[i] == list_before[i]);
                        }
                    }
                    let nt = crate::topology::names(self.registry.types@);
                    assert(nt.contains(dv.name)) by {
                        if types_before.contains(dv.name) {
                        } else {
                            assert(nt[types_before.len() as int] == dv.name);
                        }
                    }
                    assert forall|x: Seq<char>| types_before.contains(x) implies nt.contains(x) by {
                        if !types_before.contains(dv.name) {
                            let i = choose|i: int| 0 <= i < types_before.len() && types_before[i] == x;
                            assert(nt[i] == x);
                        }
                    }
                    assert forall|x: Seq<char>| nt.contains(x) implies types0.contains(x) || f1.contains(x) by {
                        if !types_before.contains(x) {
                            if types_before.contains(dv.name) {
                            } else {
                                let i = choose|i: int| 0 <= i < nt.len() && nt[i] == x;
                                if i < types_before.len() {
                                    assert(types_before[i] == x);
                                } else {
                                    assert(x == dv.name);
                                    assert(f1[f.len() as int] == x);
                                }
                            }
                        }
                        if types_before.contains(x) && !types0.contains(x) {
                            assert(f.contains(x));
                            let i = choose|i: int| 0 <= i < f.len() && f[i] == x;
                            assert(f1[i] == x);
                        }
                    }
                    assert forall|i: int| 0 <= i < f1.len() implies nt.contains(#[trigger] f1[i]) by {
                        if i < f.len() {
                            assert(f1[i] == f[i]);
                            assert(types_before.contains(f[i]));
                        }
                    }
                }
            } else {
                proof {
                    assert(fresh_names(reg0, v.developments, k + 1) == f);
                }
            }
            k = k + 1;
        }
        Ok(list)
    }
}

/// The fresh names up to `k` are a prefix of those up to `n`.
proof fn lemma_fresh_prefix(reg: Seq<Seq<char>>, devs: Seq<DevelopmentV>, k: int, n: int)
    requires
        0 <= k <= n <= devs.len(),
    ensures
        (reg + fresh_names(reg, devs, k)).len() <= (reg + fresh_names(reg, devs, n)).len(),
        reg + fresh_names(reg, devs, k) == (reg + fresh_names(reg, devs, n)).take((reg + fresh_names(reg, devs, k)).len() as int),
    decreases n - k,
{
    if k < n {
        lemma_fresh_prefix(reg, devs, k + 1, n);
        let a = reg + fresh_names(reg, devs, k);
        let b = reg + fresh_names(reg, devs, k + 1);
        let c = reg + fresh_names(reg, devs, n);
        assert(b.take(a.len() as int) =~= a) by {
            if fresh_names(reg, devs, k + 1) != fresh_names(reg, devs, k) {
                assert(fresh_names(reg, devs, k + 1) == fresh_names(reg, devs, k).push(devs[k].name));
            }
        }
        assert(c.take(a.len() as int) =~= a) by {
            assert forall|i: int| 0 <= i < a.len() implies c[i] == a[i] by {
                assert(c.take(b.len() as int)[i] == b[i]);
                assert(b.take(a.len() as int)[i] == a[i]);
            }
        }
    } else {
        assert((reg + fresh_names(reg, devs, k)).take((reg + fresh_names(reg, devs, k)).len() as int)
            =~= reg + fresh_names(reg, devs, k));
    }
}

fn has_text(v: &Vec<String>, x: &String) -> (r: bool)
    ensures
        r == crate::topology::names(v@).contains(x@),
{
    let mut i: usize = 0;
    while i < v.len()
        invariant
            i <= v@.len(),
            forall|k: int| 0 <= k < i ==> v@[k]@ != x@,
        decreases v.len() - i,
    {
        if str_equal(v[i].as_str(), x.as_str()) {
            proof {
                assert(crate::topology::names(v@)[i as int] == x@);
            }
            return true;
        }
        i = i + 1;
    }
    proof {
        if crate::topology::names(v@).contains(x@) {
            let k = choose|k: int| 0 <= k < v@.len() && crate::topology::names(v@)[k] == x@;
            assert(v@[k]@ == x@);
        }
    }
    false
}

} // verus!
