//! The current resolve, computed **without invoking cargo** — from the texts
//! of `Cargo.lock` and the workspace manifests.
//!
//! `Cargo.lock` is the authoritative, platform-agnostic superset of every
//! package the build graph can reference, and it's exactly what `target/` was
//! built against. `Cargo.lock` doesn't list per-package *target* names
//! (lib/bin/test/example), which cargo uses to name units on disk, so they are
//! reconstructed from each workspace member's `Cargo.toml` plus cargo's target
//! auto-discovery conventions. Reconstruction errs toward *more* names, which
//! is the safe direction: an extra name only ever keeps a unit, never deletes
//! one.

use vstd::prelude::*;
use crate::text::{
    chars_of, contains_str, has_prefix, lemma_strings_view_push, owned, push_char, push_str, starts_with,
    strings_view,
};
use crate::toml_doc::{
    as_array, as_bool, as_str, get, get_in, opt_val, parse_document, spec_as_array, spec_as_bool,
    spec_as_str, spec_get, spec_get_in, toml_document, docs, TomlDoc, TomlValue,
};

verus! {

/// Cargo uses the crate name (hyphens → underscores) in `deps/` and
/// `incremental/`.
pub open spec fn spec_normalize(name: Seq<char>) -> Seq<char> {
    name.map_values(|c: char| if c == '-' { '_' } else { c })
}

/// Normalizing twice is normalizing once.
pub proof fn lemma_normalize_idempotent(name: Seq<char>)
    ensures
        spec_normalize(spec_normalize(name)) == spec_normalize(name),
{
    assert(spec_normalize(spec_normalize(name)) =~= spec_normalize(name));
}

/// Cargo uses the crate name (hyphens → underscores) in `deps/` and
/// `incremental/`; normalize before comparing names.
pub fn normalize(name: &str) -> (res: String)
    ensures
        res@ == spec_normalize(name@),
{
    let cs = chars_of(name);
    let mut out = String::new();
    let mut i: usize = 0;
    while i < cs.len()
        invariant
            i <= cs@.len(),
            cs@ == name@,
            out@ == spec_normalize(name@).take(i as int),
        decreases cs@.len() - i,
    {
        let c = cs[i];
        push_char(&mut out, if c == '-' { '_' } else { c });
        assert(out@ =~= spec_normalize(name@).take(i + 1));
        i += 1;
    }
    assert(spec_normalize(name@).take(cs@.len() as int) == spec_normalize(name@));
    out
}

/// The mathematical content of a [`LiveSet`]: the registry identities
/// (`"{name}-{version}"`) and the normalized package/target names.
pub struct LiveView {
    pub registry: Set<Seq<char>>,
    pub names: Set<Seq<char>>,
}

/// The set of identities the current resolve can reference.
#[derive(Debug)]
pub struct LiveSet {
    /// Registry packages as `"{name}-{version}"` (matches on-disk dir naming).
    registry_versions: Vec<String>,
    /// Package names AND reconstructed target crate names, normalized
    /// (`-` → `_`), for matching local units, build scripts and incremental.
    names: Vec<String>,
}

impl View for LiveSet {
    type V = LiveView;

    closed spec fn view(&self) -> LiveView {
        LiveView {
            registry: strings_view(self.registry_versions@).to_set(),
            names: strings_view(self.names@).to_set(),
        }
    }
}

/// Adds `s` to `v` unless it is already there.
fn insert_string(v: &mut Vec<String>, s: String)
    requires
        strings_view(old(v)@).no_duplicates(),
    ensures
        strings_view(final(v)@).no_duplicates(),
        strings_view(final(v)@).to_set() == strings_view(old(v)@).to_set().insert(s@),
{
    if !contains_str(v, &s) {
        let ghost before = v@;
        let ghost sv = s@;
        v.push(s);
        proof {
            lemma_strings_view_push(before, s);
            strings_view(before).lemma_push_to_set_commute(sv);
        }
    } else {
        assert(strings_view(v@).to_set() =~= strings_view(v@).to_set().insert(s@));
    }
}

impl Clone for LiveSet {
    fn clone(&self) -> (res: LiveSet)
        ensures
            res@ == self@,
    {
        proof {
            use_type_invariant(self);
        }
        let registry_versions = crate::text::copy_strings(&self.registry_versions);
        let names = crate::text::copy_strings(&self.names);
        assert(strings_view(names@).len() == names@.len());
        assert(strings_view(self.names@).len() == self.names@.len());
        proof {
            assert forall|i: int| 0 <= i < names@.len() implies spec_normalize(
                #[trigger] names@[i]@,
            ) == names@[i]@ by {
                assert(strings_view(names@)[i] == strings_view(self.names@)[i]);
                assert(names@[i]@ == self.names@[i]@);
                assert(spec_normalize(self.names@[i]@) == self.names@[i]@);
            }
        }
        LiveSet { registry_versions, names }
    }
}

impl Default for LiveSet {
    fn default() -> (res: LiveSet)
        ensures
            res@.registry == Set::<Seq<char>>::empty(),
            res@.names == Set::<Seq<char>>::empty(),
    {
        LiveSet::empty()
    }
}

impl LiveSet {
    #[verifier::type_invariant]
    spec fn inv(self) -> bool {
        &&& strings_view(self.registry_versions@).no_duplicates()
        &&& strings_view(self.names@).no_duplicates()
        &&& forall|i: int|
            0 <= i < self.names@.len() ==> spec_normalize(#[trigger] self.names@[i]@)
                == self.names@[i]@
    }

    /// The empty resolve: nothing is live.
    pub fn empty() -> (res: LiveSet)
        ensures
            res@.registry == Set::<Seq<char>>::empty(),
            res@.names == Set::<Seq<char>>::empty(),
    {
        let res = LiveSet { registry_versions: Vec::new(), names: Vec::new() };
        assert(strings_view(res.registry_versions@).to_set() =~= Set::<Seq<char>>::empty());
        assert(strings_view(res.names@).to_set() =~= Set::<Seq<char>>::empty());
        res
    }

    /// Records a registry identity `"{name}-{version}"`.
    pub fn add_registry(&mut self, name_version: String)
        ensures
            final(self)@.registry == old(self)@.registry.insert(name_version@),
            final(self)@.names == old(self)@.names,
    {
        proof {
            use_type_invariant(&*self);
        }
        let mut regs: Vec<String> = Vec::new();
        std::mem::swap(&mut regs, &mut self.registry_versions);
        insert_string(&mut regs, name_version);
        self.registry_versions = regs;
    }

    /// Records a package or target name (normalized on the way in).
    pub fn add_name(&mut self, name: &str)
        ensures
            final(self)@.names == old(self)@.names.insert(spec_normalize(name@)),
            final(self)@.registry == old(self)@.registry,
    {
        proof {
            use_type_invariant(&*self);
        }
        let n = normalize(name);
        proof {
            lemma_normalize_idempotent(name@);
        }
        let mut names: Vec<String> = Vec::new();
        std::mem::swap(&mut names, &mut self.names);
        let ghost before = names@;
        insert_string(&mut names, n);
        proof {
            assert forall|i: int| 0 <= i < names@.len() implies spec_normalize(
                #[trigger] names@[i]@,
            ) == names@[i]@ by {
                assert(strings_view(names@)[i] == names@[i]@);
                assert(strings_view(names@).to_set().contains(names@[i]@));
                if names@[i]@ != spec_normalize(name@) {
                    assert(strings_view(before).to_set().contains(names@[i]@));
                    let j = choose|j: int| 0 <= j < strings_view(before).len() && strings_view(before)[j] == names@[i]@;
                    assert(before[j]@ == names@[i]@);
                }
            }
        }
        self.names = names;
    }

    /// Build a set directly from package/target names and registry identities.
    pub fn new(names: Vec<String>, registry_versions: Vec<String>) -> (res: LiveSet)
        ensures
            res@.names == strings_view(names@).map_values(|n: Seq<char>| spec_normalize(n)).to_set(),
            res@.registry == strings_view(registry_versions@).to_set(),
    {
        let mut live = LiveSet::empty();
        let mut i: usize = 0;
        while i < names.len()
            invariant
                i <= names@.len(),
                live@.names == strings_view(names@).take(i as int).map_values(|n: Seq<char>| spec_normalize(n)).to_set(),
                live@.registry == Set::<Seq<char>>::empty(),
            decreases names@.len() - i,
        {
            live.add_name(names[i].as_str());
            let ghost prev = strings_view(names@).take(i as int).map_values(|n: Seq<char>| spec_normalize(n));
            assert(strings_view(names@).take(i + 1).map_values(|n: Seq<char>| spec_normalize(n)) =~= prev.push(spec_normalize(names@[i as int]@)));
            proof {
                prev.lemma_push_to_set_commute(spec_normalize(names@[i as int]@));
            }
            i += 1;
        }
        assert(strings_view(names@).take(names@.len() as int) == strings_view(names@));
        let mut j: usize = 0;
        let mut regs = registry_versions;
        while j < regs.len()
            invariant
                j <= regs@.len(),
                live@.names == strings_view(names@).map_values(|n: Seq<char>| spec_normalize(n)).to_set(),
                live@.registry == strings_view(regs@).take(j as int).to_set(),
            decreases regs@.len() - j,
        {
            let r = regs[j].clone();
            live.add_registry(r);
            assert(strings_view(regs@).take(j + 1) =~= strings_view(regs@).take(j as int).push(regs@[j as int]@));
            proof {
                strings_view(regs@).take(j as int).lemma_push_to_set_commute(regs@[j as int]@);
            }
            j += 1;
        }
        assert(strings_view(regs@).take(regs@.len() as int) == strings_view(regs@));
        live
    }

    /// Is this `"{name}-{version}"` registry identity in the resolve?
    pub fn registry_is_live(&self, name_version: &str) -> (res: bool)
        ensures
            res == self@.registry.contains(name_version@),
    {
        let key = crate::text::owned(name_version);
        contains_str(&self.registry_versions, &key)
    }

    /// Is this package/target name part of the resolve?
    pub fn name_is_live(&self, name: &str) -> (res: bool)
        ensures
            res == self@.names.contains(spec_normalize(name@)),
    {
        let key = normalize(name);
        contains_str(&self.names, &key)
    }
}

/// Why no resolve could be computed.
#[derive(Debug, Clone, Copy, PartialEq, Eq, Structural)]
pub enum ResolveError {
    /// `Cargo.lock` is not TOML.
    LockSyntax,
    /// `Cargo.lock` lists no packages: resolving against it would make every
    /// artifact look unreachable, so it is refused.
    EmptyLock,
    /// The workspace `Cargo.toml` is not TOML.
    ManifestSyntax,
}

// ---------------------------------------------------------------------------
// Cargo.lock
// ---------------------------------------------------------------------------

/// The `[[package]]` entries of a lockfile.
pub open spec fn lock_packages(doc: TomlDoc) -> Seq<TomlDoc> {
    match spec_as_array(spec_get(doc, "package"@)) {
        Some(ps) => ps,
        None => Seq::empty(),
    }
}

/// A string field of a table, or the empty string (`unwrap_or_default`).
pub open spec fn str_field(t: TomlDoc, key: Seq<char>) -> Seq<char> {
    match spec_as_str(spec_get(t, key)) {
        Some(s) => s,
        None => Seq::empty(),
    }
}

/// The package comes from a registry: a git-index registry
/// (`source = "registry+…"`) or a sparse one (`source = "sparse+…"`). Cargo
/// unpacks both under `…/registry/src/`, where a unit's depfile pins it as
/// `name-version`.
pub open spec fn from_registry(p: TomlDoc) -> bool {
    match spec_as_str(spec_get(p, "source"@)) {
        Some(s) => has_prefix(s, "registry+"@) || has_prefix(s, "sparse+"@),
        None => false,
    }
}

/// The normalized names of the packages a lockfile lists.
pub open spec fn lock_names(ps: Seq<TomlDoc>) -> Set<Seq<char>>
    decreases ps.len(),
{
    if ps.len() == 0 {
        Set::empty()
    } else {
        let rest = lock_names(ps.drop_last());
        let name = str_field(ps.last(), "name"@);
        if name.len() == 0 {
            rest
        } else {
            rest.insert(spec_normalize(name))
        }
    }
}

/// The `"{name}-{version}"` identities of the registry packages a lockfile lists.
pub open spec fn lock_registry(ps: Seq<TomlDoc>) -> Set<Seq<char>>
    decreases ps.len(),
{
    if ps.len() == 0 {
        Set::empty()
    } else {
        let rest = lock_registry(ps.drop_last());
        let p = ps.last();
        let name = str_field(p, "name"@);
        if name.len() == 0 || !from_registry(p) {
            rest
        } else {
            rest.insert(name + seq!['-'] + str_field(p, "version"@))
        }
    }
}

/// A string field of a table, or the empty string.
fn string_field(t: &TomlValue, key: &str) -> (res: String)
    ensures
        res@ == str_field(t@, key@),
{
    match as_str(get(t, key)) {
        Some(s) => s.clone(),
        None => String::new(),
    }
}

/// The live set a parsed lockfile describes: every package name, and every
/// registry package as `"{name}-{version}"`. A lockfile that names no package
/// is refused (fail closed).
pub fn lock_live_set(doc: &TomlValue) -> (res: Result<LiveSet, ResolveError>)
    ensures
        match res {
            Ok(live) => {
                &&& lock_names(lock_packages(doc@)) != Set::<Seq<char>>::empty()
                &&& live@.names == lock_names(lock_packages(doc@))
                &&& live@.registry == lock_registry(lock_packages(doc@))
            },
            Err(e) => e == ResolveError::EmptyLock && lock_names(lock_packages(doc@))
                == Set::<Seq<char>>::empty(),
        },
{
    let mut live = LiveSet::empty();
    let empty: Vec<TomlValue> = Vec::new();
    let packages: &Vec<TomlValue> = match as_array(get(doc, "package")) {
        Some(ps) => ps,
        None => &empty,
    };
    let ghost ps = lock_packages(doc@);
    assert(docs(packages@) == ps);
    let mut any_name = false;
    let mut i: usize = 0;
    while i < packages.len()
        invariant
            i <= packages@.len(),
            docs(packages@) == ps,
            live@.names == lock_names(ps.take(i as int)),
            live@.registry == lock_registry(ps.take(i as int)),
            any_name == (lock_names(ps.take(i as int)) != Set::<Seq<char>>::empty()),
        decreases packages@.len() - i,
    {
        assert(ps.take(i + 1).drop_last() == ps.take(i as int));
        assert(ps.take(i + 1).last() == packages@[i as int]@);
        let package = &packages[i];
        let name = string_field(package, "name");
        if !name.as_str().is_empty() {
            let version = string_field(package, "version");
            let is_registry = match as_str(get(package, "source")) {
                Some(src) => {
                    let cs = chars_of(src.as_str());
                    let reg = chars_of("registry+");
                    let sparse = chars_of("sparse+");
                    starts_with(cs.as_slice(), reg.as_slice()) || starts_with(
                        cs.as_slice(),
                        sparse.as_slice(),
                    )
                },
                None => false,
            };
            live.add_name(name.as_str());
            if is_registry {
                let mut key = name.clone();
                push_char(&mut key, '-');
                push_str(&mut key, version.as_str());
                assert(key@ == name@ + seq!['-'] + version@);
                live.add_registry(key);
            }
            proof {
                assert(lock_names(ps.take(i + 1)).contains(spec_normalize(name@)));
            }
            any_name = true;
        } else {
            proof {
                assert(name@.len() == 0);
            }
        }
        i += 1;
    }
    assert(ps.take(ps.len() as int) == ps);
    if !any_name {
        return Err(ResolveError::EmptyLock);
    }
    Ok(live)
}

// ---------------------------------------------------------------------------
// Member targets
// ---------------------------------------------------------------------------

/// One entry of a conventional target directory (`src/bin`, `examples`,
/// `tests`, `benches`): its name, whether it is a file, and whether it is a
/// directory holding a `main.rs`.
pub struct DirEntryFacts {
    pub name: String,
    pub is_file: bool,
    pub has_main_rs: bool,
}

/// What a member's directory holds that target auto-discovery looks at.
pub struct MemberLayout {
    pub has_lib_rs: bool,
    pub has_main_rs: bool,
    pub bins: Vec<DirEntryFacts>,
    pub examples: Vec<DirEntryFacts>,
    pub tests: Vec<DirEntryFacts>,
    pub benches: Vec<DirEntryFacts>,
}

/// The target a directory entry stands for: a `*.rs` file by its stem, a
/// directory holding `main.rs` by its name.
pub open spec fn spec_dir_target(e: DirEntryFacts) -> Option<Seq<char>> {
    let n = e.name@;
    if e.is_file && n.len() > 3 && n.skip(n.len() - 3) == ".rs"@ {
        Some(n.take(n.len() - 3))
    } else if e.has_main_rs {
        Some(n)
    } else {
        None
    }
}

pub open spec fn dir_targets(es: Seq<DirEntryFacts>) -> Seq<Seq<char>>
    decreases es.len(),
{
    if es.len() == 0 {
        Seq::empty()
    } else {
        match spec_dir_target(es.last()) {
            Some(n) => dir_targets(es.drop_last()).push(n),
            None => dir_targets(es.drop_last()),
        }
    }
}

/// The `name`s of an array of target tables.
pub open spec fn table_names(ts: Seq<TomlDoc>) -> Seq<Seq<char>>
    decreases ts.len(),
{
    if ts.len() == 0 {
        Seq::empty()
    } else {
        match spec_as_str(spec_get(ts.last(), "name"@)) {
            Some(n) => table_names(ts.drop_last()).push(n),
            None => table_names(ts.drop_last()),
        }
    }
}

/// `[package].name`.
pub open spec fn package_name(doc: TomlDoc) -> Option<Seq<char>> {
    spec_as_str(spec_get_in(spec_get(doc, "package"@), "name"@))
}

pub open spec fn opt_seq(n: Option<Seq<char>>) -> Seq<Seq<char>> {
    match n {
        Some(x) => seq![x],
        None => Seq::empty(),
    }
}

/// The library's name: `[lib].name`, else the package name, when there is a
/// `[lib]` table or a `src/lib.rs`.
pub open spec fn lib_name(doc: TomlDoc, layout: MemberLayout) -> Option<Seq<char>> {
    match spec_get(doc, "lib"@) {
        Some(lib) => match spec_as_str(spec_get(lib, "name"@)) {
            Some(n) => Some(n),
            None => package_name(doc),
        },
        None => if layout.has_lib_rs {
            package_name(doc)
        } else {
            None
        },
    }
}

/// The names of the explicit target tables of one section (`[[bin]]`, ...).
pub open spec fn section_names(doc: TomlDoc, section: Seq<char>) -> Seq<Seq<char>> {
    match spec_as_array(spec_get(doc, section)) {
        Some(ts) => table_names(ts),
        None => Seq::empty(),
    }
}

/// Whether auto-discovery of one kind of target is on (`[package].autobins`
/// and friends; on unless set to `false`).
pub open spec fn auto_on(doc: TomlDoc, key: Seq<char>) -> bool {
    match spec_as_bool(spec_get_in(spec_get(doc, "package"@), key)) {
        Some(b) => b,
        None => true,
    }
}

pub open spec fn auto_targets(doc: TomlDoc, key: Seq<char>, es: Seq<DirEntryFacts>) -> Seq<Seq<char>> {
    if auto_on(doc, key) {
        dir_targets(es)
    } else {
        Seq::empty()
    }
}

/// The names of every target of a member, before normalization: the
/// library, the default binary, the explicit target tables, and the
/// auto-discovered targets.
pub open spec fn member_target_names(doc: TomlDoc, layout: MemberLayout) -> Seq<Seq<char>> {
    opt_seq(lib_name(doc, layout)) + (if layout.has_main_rs {
        opt_seq(package_name(doc))
    } else {
        Seq::empty()
    }) + section_names(doc, "bin"@) + section_names(doc, "example"@) + section_names(doc, "test"@)
        + section_names(doc, "bench"@) + auto_targets(doc, "autobins"@, layout.bins@) + auto_targets(
        doc,
        "autoexamples"@,
        layout.examples@,
    ) + auto_targets(doc, "autotests"@, layout.tests@) + auto_targets(
        doc,
        "autobenches"@,
        layout.benches@,
    )
}

/// The target a directory entry stands for.
pub fn dir_target(e: &DirEntryFacts) -> (res: Option<String>)
    ensures
        match res {
            Some(n) => spec_dir_target(*e) == Some(n@),
            None => spec_dir_target(*e) is None,
        },
{
    let cs = chars_of(e.name.as_str());
    let suffix = chars_of(".rs");
    proof {
        reveal_strlit(".rs");
    }
    if e.is_file && cs.len() > 3 {
        let tail = crate::units::slice_range(cs.as_slice(), cs.len() - 3, cs.len());
        assert(tail@ == cs@.skip(cs@.len() - 3));
        if crate::text::chars_eq(tail, suffix.as_slice()) {
            let stem = crate::units::slice_range(cs.as_slice(), 0, cs.len() - 3);
            assert(stem@ == cs@.take(cs@.len() - 3));
            return Some(crate::text::string_of(stem));
        }
    }
    if e.has_main_rs {
        Some(e.name.clone())
    } else {
        None
    }
}

/// Appends the targets of a conventional target directory.
fn push_dir_targets(out: &mut Vec<String>, es: &Vec<DirEntryFacts>)
    ensures
        strings_view(final(out)@) == strings_view(old(out)@) + dir_targets(es@),
{
    let ghost start = strings_view(out@);
    let mut i: usize = 0;
    while i < es.len()
        invariant
            i <= es@.len(),
            strings_view(out@) == start + dir_targets(es@.take(i as int)),
        decreases es@.len() - i,
    {
        assert(es@.take(i + 1).drop_last() == es@.take(i as int));
        assert(es@.take(i + 1).last() == es@[i as int]);
        match dir_target(&es[i]) {
            Some(n) => {
                let ghost before = out@;
                let ghost nv = n@;
                out.push(n);
                proof {
                    lemma_strings_view_push(before, n);
                }
                assert(strings_view(out@) =~= start + dir_targets(es@.take(i as int)).push(nv));
            },
            None => {},
        }
        i += 1;
    }
    assert(es@.take(es@.len() as int) == es@);
}

/// Appends the `name`s of the explicit target tables of one section.
fn push_section_names(out: &mut Vec<String>, doc: &TomlValue, section: &str)
    ensures
        strings_view(final(out)@) == strings_view(old(out)@) + section_names(doc@, section@),
{
    let ghost start = strings_view(out@);
    match as_array(get(doc, section)) {
        Some(ts) => {
            let ghost ds = docs(ts@);
            let mut i: usize = 0;
            while i < ts.len()
                invariant
                    i <= ts@.len(),
                    ds == docs(ts@),
                    strings_view(out@) == start + table_names(ds.take(i as int)),
                decreases ts@.len() - i,
            {
                assert(ds.take(i + 1).drop_last() == ds.take(i as int));
                assert(ds.take(i + 1).last() == ts@[i as int]@);
                match as_str(get(&ts[i], "name")) {
                    Some(n) => {
                        let ghost before = out@;
                        let c = n.clone();
                        out.push(c);
                        proof {
                            lemma_strings_view_push(before, c);
                        }
                        assert(strings_view(out@) =~= start + table_names(ds.take(i as int)).push(n@));
                    },
                    None => {},
                }
                i += 1;
            }
            assert(ds.take(ds.len() as int) == ds);
        },
        None => {
            assert(strings_view(out@) =~= start + Seq::<Seq<char>>::empty());
        },
    }
}

/// Whether auto-discovery of one kind of target is on.
fn auto_enabled(doc: &TomlValue, key: &str) -> (res: bool)
    ensures
        res == auto_on(doc@, key@),
{
    match as_bool(get_in(get(doc, "package"), key)) {
        Some(b) => b,
        None => true,
    }
}

/// Appends one optional name.
fn push_opt(out: &mut Vec<String>, n: Option<String>)
    ensures
        strings_view(final(out)@) == strings_view(old(out)@) + opt_seq(
            match n {
                Some(s) => Some(s@),
                None => None,
            },
        ),
{
    match n {
        Some(s) => {
            let ghost before = out@;
            let ghost sv = s@;
            out.push(s);
            proof {
                lemma_strings_view_push(before, s);
            }
            assert(strings_view(out@) =~= strings_view(before) + seq![sv]);
        },
        None => {
            assert(strings_view(out@) =~= strings_view(out@) + Seq::<Seq<char>>::empty());
        },
    }
}

/// The name `[package].name` gives, if it is a string.
fn manifest_package_name(doc: &TomlValue) -> (res: Option<String>)
    ensures
        match res {
            Some(s) => package_name(doc@) == Some(s@),
            None => package_name(doc@) is None,
        },
{
    match as_str(get_in(get(doc, "package"), "name")) {
        Some(s) => Some(s.clone()),
        None => None,
    }
}

/// Reconstruct the names of every target of a member from its manifest and
/// the layout of its directory, applying cargo's auto-discovery conventions
/// plus any explicit target tables. The names are normalized (`-` → `_`).
pub fn member_targets(doc: &TomlValue, layout: &MemberLayout) -> (res: Vec<String>)
    ensures
        strings_view(res@) == member_target_names(doc@, *layout).map_values(
            |n: Seq<char>| spec_normalize(n),
        ),
{
    let mut out: Vec<String> = Vec::new();
    let lib = match get(doc, "lib") {
        Some(lib) => match as_str(get(lib, "name")) {
            Some(n) => Some(n.clone()),
            None => manifest_package_name(doc),
        },
        None => if layout.has_lib_rs {
            manifest_package_name(doc)
        } else {
            None
        },
    };
    assert(strings_view(out@) == Seq::<Seq<char>>::empty());
    push_opt(&mut out, lib);
    if layout.has_main_rs {
        push_opt(&mut out, manifest_package_name(doc));
    } else {
        assert(strings_view(out@) =~= strings_view(out@) + Seq::<Seq<char>>::empty());
    }
    push_section_names(&mut out, doc, "bin");
    push_section_names(&mut out, doc, "example");
    push_section_names(&mut out, doc, "test");
    push_section_names(&mut out, doc, "bench");
    let ghost before_auto = strings_view(out@);
    if auto_enabled(doc, "autobins") {
        push_dir_targets(&mut out, &layout.bins);
    }
    let ghost after_bins = strings_view(out@);
    assert(after_bins =~= before_auto + auto_targets(doc@, "autobins"@, layout.bins@));
    if auto_enabled(doc, "autoexamples") {
        push_dir_targets(&mut out, &layout.examples);
    }
    let ghost after_examples = strings_view(out@);
    assert(after_examples =~= after_bins + auto_targets(doc@, "autoexamples"@, layout.examples@));
    if auto_enabled(doc, "autotests") {
        push_dir_targets(&mut out, &layout.tests);
    }
    let ghost after_tests = strings_view(out@);
    assert(after_tests =~= after_examples + auto_targets(doc@, "autotests"@, layout.tests@));
    if auto_enabled(doc, "autobenches") {
        push_dir_targets(&mut out, &layout.benches);
    }
    assert(strings_view(out@) =~= after_tests + auto_targets(doc@, "autobenches"@, layout.benches@));
    assert(strings_view(out@) =~= member_target_names(doc@, *layout));
    let ghost raw = strings_view(out@);
    let mut res: Vec<String> = Vec::new();
    let mut i: usize = 0;
    while i < out.len()
        invariant
            i <= out@.len(),
            raw == strings_view(out@),
            strings_view(res@) == raw.take(i as int).map_values(|n: Seq<char>| spec_normalize(n)),
        decreases out@.len() - i,
    {
        let ghost before = res@;
        let n = normalize(out[i].as_str());
        let ghost nv = n@;
        res.push(n);
        proof {
            lemma_strings_view_push(before, n);
        }
        assert(raw[i as int] == out@[i as int]@);
        assert(raw.take(i + 1).map_values(|n: Seq<char>| spec_normalize(n)) =~= raw.take(
            i as int,
        ).map_values(|n: Seq<char>| spec_normalize(n)).push(nv));
        i += 1;
    }
    assert(raw.take(raw.len() as int) == raw);
    res
}

// ---------------------------------------------------------------------------
// Workspace members
// ---------------------------------------------------------------------------

/// The non-empty `/`-separated components of a path pattern, continuing a
/// component `cur` already begun.
pub open spec fn components_from(s: Seq<char>, cur: Seq<char>) -> Seq<Seq<char>>
    decreases s.len(),
{
    if s.len() == 0 {
        crate::units::flush(cur)
    } else if s[0] == '/' {
        crate::units::flush(cur) + components_from(s.drop_first(), Seq::empty())
    } else {
        components_from(s.drop_first(), cur.push(s[0]))
    }
}

pub open spec fn components(s: Seq<char>) -> Seq<Seq<char>> {
    components_from(s, Seq::empty())
}

/// A pattern with a `..` component would reach outside the workspace.
pub open spec fn escapes(pattern: Seq<char>) -> bool {
    components(pattern).contains(".."@)
}

/// The strings among array items.
pub open spec fn item_strs(items: Seq<TomlDoc>) -> Seq<Seq<char>>
    decreases items.len(),
{
    if items.len() == 0 {
        Seq::empty()
    } else {
        match spec_as_str(Some(items.last())) {
            Some(s) => item_strs(items.drop_last()).push(s),
            None => item_strs(items.drop_last()),
        }
    }
}

/// The `[workspace].members` patterns of a manifest.
pub open spec fn member_patterns(doc: TomlDoc) -> Seq<Seq<char>> {
    match spec_as_array(spec_get_in(spec_get(doc, "workspace"@), "members"@)) {
        Some(items) => item_strs(items),
        None => Seq::empty(),
    }
}

/// The components of the patterns that stay inside the workspace.
pub open spec fn confined(patterns: Seq<Seq<char>>) -> Seq<Seq<Seq<char>>>
    decreases patterns.len(),
{
    if patterns.len() == 0 {
        Seq::empty()
    } else if escapes(patterns.last()) {
        confined(patterns.drop_last())
    } else {
        confined(patterns.drop_last()).push(components(patterns.last()))
    }
}

/// What the workspace manifest says about the members.
pub struct WorkspaceMembers {
    /// The root is itself a package.
    pub has_package: bool,
    /// The components of each `[workspace].members` pattern that stays inside
    /// the workspace, `*` standing for any directory.
    pub patterns: Vec<Vec<String>>,
}

pub open spec fn patterns_view(ps: Seq<Vec<String>>) -> Seq<Seq<Seq<char>>> {
    Seq::new(ps.len(), |i: int| strings_view(ps[i]@))
}

/// `s` split at every `/`, empty components dropped.
pub fn split_components(s: &[char]) -> (res: Vec<String>)
    ensures
        strings_view(res@) == components(s@),
{
    let mut out: Vec<String> = Vec::new();
    let mut cur: Vec<char> = Vec::new();
    let mut i: usize = 0;
    assert(s@.skip(0) == s@);
    while i < s.len()
        invariant
            i <= s@.len(),
            strings_view(out@) + components_from(s@.skip(i as int), cur@) == components(s@),
        decreases s@.len() - i,
    {
        let ghost old_out = out@;
        let ghost old_cur = cur@;
        assert(s@.skip(i as int).drop_first() == s@.skip(i + 1));
        assert(s@.skip(i as int)[0] == s@[i as int]);
        if s[i] == '/' {
            let ghost rest = components_from(s@.skip(i + 1), Seq::empty());
            assert(components_from(s@.skip(i as int), old_cur) == crate::units::flush(old_cur) + rest);
            if cur.len() > 0 {
                let w = crate::text::string_of(cur.as_slice());
                out.push(w);
                cur = Vec::new();
                proof {
                    lemma_strings_view_push(old_out, w);
                }
                assert(strings_view(out@) + rest =~= strings_view(old_out) + (crate::units::flush(old_cur) + rest));
            } else {
                assert(cur@ =~= Seq::<char>::empty());
                assert(crate::units::flush(old_cur) + rest =~= rest);
            }
        } else {
            cur.push(s[i]);
            assert(components_from(s@.skip(i as int), old_cur) == components_from(s@.skip(i + 1), cur@));
        }
        assert(strings_view(out@) + components_from(s@.skip(i + 1), cur@) == components(s@));
        i += 1;
    }
    if cur.len() > 0 {
        let ghost old_out = out@;
        let w = crate::text::string_of(cur.as_slice());
        out.push(w);
        proof {
            lemma_strings_view_push(old_out, w);
        }
        assert(strings_view(out@) =~= strings_view(old_out) + crate::units::flush(cur@));
    } else {
        assert(strings_view(out@) + crate::units::flush(cur@) =~= strings_view(out@));
    }
    out
}

/// Does a list of components hold `..`?
fn has_parent_component(cs: &Vec<String>) -> (res: bool)
    ensures
        res == strings_view(cs@).contains(".."@),
{
    let dots = owned("..");
    contains_str(cs, &dots)
}

/// What a parsed workspace manifest says about the members: whether the root
/// is a package, and the components of each `[workspace].members` pattern,
/// leaving out any pattern with a `..` component (it would reach outside the
/// workspace).
pub fn workspace_members_of(doc: &TomlValue) -> (res: WorkspaceMembers)
    ensures
        res.has_package == (spec_get(doc@, "package"@) is Some),
        patterns_view(res.patterns@) == confined(member_patterns(doc@)),
{
    let has_package = get(doc, "package").is_some();
    let mut patterns: Vec<Vec<String>> = Vec::new();
    match as_array(get_in(get(doc, "workspace"), "members")) {
        Some(items) => {
            let ghost ds = docs(items@);
            let mut i: usize = 0;
            while i < items.len()
                invariant
                    i <= items@.len(),
                    ds == docs(items@),
                    patterns_view(patterns@) == confined(item_strs(ds.take(i as int))),
                decreases items@.len() - i,
            {
                assert(ds.take(i + 1).drop_last() == ds.take(i as int));
                assert(ds.take(i + 1).last() == items@[i as int]@);
                let ghost prefix = item_strs(ds.take(i as int));
                match as_str(Some(&items[i])) {
                    Some(pat) => {
                        let cs = chars_of(pat.as_str());
                        let comps = split_components(cs.as_slice());
                        assert(item_strs(ds.take(i + 1)) == prefix.push(pat@));
                        assert(prefix.push(pat@).drop_last() == prefix);
                        if !has_parent_component(&comps) {
                            let ghost before = patterns@;
                            let ghost cv = strings_view(comps@);
                            patterns.push(comps);
                            assert(patterns_view(patterns@) =~= patterns_view(before).push(cv));
                        }
                    },
                    None => {},
                }
                i += 1;
            }
            assert(ds.take(ds.len() as int) == ds);
        },
        None => {},
    }
    WorkspaceMembers { has_package, patterns }
}

/// What a workspace manifest says about the members; the manifest must be
/// TOML.
pub fn workspace_members(manifest_text: &str) -> (res: Result<WorkspaceMembers, ResolveError>)
    ensures
        match toml_document(manifest_text@) {
            Some(doc) => match res {
                Ok(w) => w.has_package == (spec_get(doc, "package"@) is Some) && patterns_view(
                    w.patterns@,
                ) == confined(member_patterns(doc)),
                Err(_) => false,
            },
            None => res == Err::<WorkspaceMembers, ResolveError>(ResolveError::ManifestSyntax),
        },
{
    match parse_document(manifest_text) {
        Some(doc) => Ok(workspace_members_of(&doc)),
        None => Err(ResolveError::ManifestSyntax),
    }
}

/// How one component of a member pattern is followed from a directory.
pub enum MemberStep {
    /// `*`: into every subdirectory.
    EverySubdir,
    /// Into the subdirectory of this name, if there is one.
    Named(String),
}

/// How a pattern component is followed: `*` stands for every subdirectory,
/// any other component for the subdirectory it names.
pub fn member_step(component: &str) -> (res: MemberStep)
    ensures
        component@ == "*"@ ==> res is EverySubdir,
        component@ != "*"@ ==> (res matches MemberStep::Named(n) && n@ == component@),
{
    let cs = chars_of(component);
    let star = chars_of("*");
    if crate::text::chars_eq(cs.as_slice(), star.as_slice()) {
        MemberStep::EverySubdir
    } else {
        MemberStep::Named(owned(component))
    }
}

/// The member directories: the root (when it is a package) and the expanded
/// member patterns, each once; the root alone when that leaves nothing.
pub open spec fn spec_member_dirs(has_package: bool, root: Seq<char>, expanded: Seq<Seq<char>>) -> Seq<Seq<char>> {
    let all = if has_package {
        seq![root] + expanded
    } else {
        expanded
    };
    if all.len() == 0 {
        seq![root]
    } else {
        crate::text::dedup(all)
    }
}

/// The member directories of a workspace.
pub fn member_dirs(has_package: bool, root: &str, expanded: Vec<String>) -> (res: Vec<String>)
    ensures
        strings_view(res@) == spec_member_dirs(has_package, root@, strings_view(expanded@)),
{
    let mut all: Vec<String> = Vec::new();
    if has_package {
        all.push(owned(root));
    }
    let ghost head = strings_view(all@);
    let mut rest = expanded;
    let ghost rv = strings_view(rest@);
    all.append(&mut rest);
    proof {
        crate::text::lemma_strings_view_add(all@.take(head.len() as int), all@.skip(head.len() as int));
        assert(all@ == all@.take(head.len() as int) + all@.skip(head.len() as int));
        assert(strings_view(all@) =~= head + rv);
        if has_package {
            assert(head =~= seq![root@]);
        } else {
            assert(head + rv =~= rv);
        }
    }
    if all.len() == 0 {
        let mut only: Vec<String> = Vec::new();
        only.push(owned(root));
        assert(strings_view(only@) =~= seq![root@]);
        return only;
    }
    crate::text::unique_strings(all)
}

/// Is `path` the directory `root` or inside it? (Both are canonical, absolute
/// paths.)
pub open spec fn spec_within(root: Seq<char>, path: Seq<char>) -> bool {
    path == root || (root.len() > 0 && has_prefix(path, root) && (root.last() == '/' || (path.len()
        > root.len() && path[root.len() as int] == '/')))
}

/// Is `path` the directory `root` or inside it?
pub fn is_within(root: &str, path: &str) -> (res: bool)
    ensures
        res == spec_within(root@, path@),
{
    let r = chars_of(root);
    let p = chars_of(path);
    if crate::text::chars_eq(p.as_slice(), r.as_slice()) {
        return true;
    }
    if r.len() == 0 || !starts_with(p.as_slice(), r.as_slice()) {
        return false;
    }
    r[r.len() - 1] == '/' || (p.len() > r.len() && p[r.len()] == '/')
}

// ---------------------------------------------------------------------------
// The resolve
// ---------------------------------------------------------------------------

/// A workspace member as read from disk: its manifest's text (`None` when it
/// could not be read) and the layout of its directory.
pub struct MemberFacts {
    pub manifest: Option<String>,
    pub layout: MemberLayout,
}

/// A workspace member with its manifest parsed (`None` when it could not be
/// read or is not TOML: such a member contributes no names).
pub struct MemberDoc {
    pub manifest: Option<TomlValue>,
    pub layout: MemberLayout,
}

/// The content of an optional parsed manifest.
pub open spec fn opt_doc(m: Option<TomlValue>) -> Option<TomlDoc> {
    match m {
        Some(d) => Some(d@),
        None => None,
    }
}

/// The members as documents and layouts.
pub open spec fn member_docs(ms: Seq<MemberDoc>) -> Seq<(Option<TomlDoc>, MemberLayout)> {
    ms.map_values(|m: MemberDoc| (opt_doc(m.manifest), m.layout))
}

/// The document a manifest text holds, if it was read and is TOML.
pub open spec fn manifest_doc(text: Option<String>) -> Option<TomlDoc> {
    match text {
        Some(t) => toml_document(t@),
        None => None,
    }
}

/// The members as read from disk, as documents and layouts.
pub open spec fn member_facts_docs(ms: Seq<MemberFacts>) -> Seq<(Option<TomlDoc>, MemberLayout)> {
    ms.map_values(|m: MemberFacts| (manifest_doc(m.manifest), m.layout))
}

/// The normalized names of a list of names.
pub open spec fn normalized_set(names: Seq<Seq<char>>) -> Set<Seq<char>> {
    names.map_values(|n: Seq<char>| spec_normalize(n)).to_set()
}

/// The normalized target names of the members whose manifests were read.
pub open spec fn members_names(ms: Seq<(Option<TomlDoc>, MemberLayout)>) -> Set<Seq<char>>
    decreases ms.len(),
{
    if ms.len() == 0 {
        Set::empty()
    } else {
        let rest = members_names(ms.drop_last());
        match ms.last().0 {
            Some(doc) => rest.union(normalized_set(member_target_names(doc, ms.last().1))),
            None => rest,
        }
    }
}

/// Normalizing names that are already normalized changes nothing.
proof fn lemma_normalized_set_of_normalized(names: Seq<Seq<char>>)
    ensures
        normalized_set(names.map_values(|n: Seq<char>| spec_normalize(n))) == normalized_set(names),
{
    let once = names.map_values(|n: Seq<char>| spec_normalize(n));
    assert forall|i: int| 0 <= i < names.len() implies spec_normalize(#[trigger] once[i]) == once[i] by {
        lemma_normalize_idempotent(names[i]);
    }
    assert(once.map_values(|n: Seq<char>| spec_normalize(n)) =~= once);
}

impl LiveSet {
    /// Records every name of a list (normalized on the way in).
    pub fn add_names(&mut self, names: &Vec<String>)
        ensures
            final(self)@.names == old(self)@.names.union(normalized_set(strings_view(names@))),
            final(self)@.registry == old(self)@.registry,
    {
        let ghost start = self@.names;
        let mut i: usize = 0;
        while i < names.len()
            invariant
                i <= names@.len(),
                self@.names == start.union(normalized_set(strings_view(names@).take(i as int))),
                self@.registry == old(self)@.registry,
            decreases names@.len() - i,
        {
            self.add_name(names[i].as_str());
            let ghost prev = strings_view(names@).take(i as int).map_values(|n: Seq<char>| spec_normalize(n));
            assert(strings_view(names@).take(i + 1).map_values(|n: Seq<char>| spec_normalize(n)) =~= prev.push(spec_normalize(names@[i as int]@)));
            proof {
                prev.lemma_push_to_set_commute(spec_normalize(names@[i as int]@));
            }
            assert(self@.names =~= start.union(normalized_set(strings_view(names@).take(i + 1))));
            i += 1;
        }
        assert(strings_view(names@).take(names@.len() as int) == strings_view(names@));
    }
}

/// The resolve a parsed lockfile and the parsed member manifests describe:
/// refused when the lockfile names no package; otherwise every registry
/// identity of the lockfile, and every package name of the lockfile together
/// with every target name reconstructed from the members.
pub open spec fn spec_resolve(lock: TomlDoc, members: Seq<(Option<TomlDoc>, MemberLayout)>) -> Result<LiveView, ResolveError> {
    let ps = lock_packages(lock);
    if lock_names(ps) == Set::<Seq<char>>::empty() {
        Err(ResolveError::EmptyLock)
    } else {
        Ok(LiveView { registry: lock_registry(ps), names: lock_names(ps).union(members_names(members)) })
    }
}

/// The resolve the text of `Cargo.lock` and what was read of the workspace
/// members describe: refused as `LockSyntax` when the lockfile is not TOML; a
/// member whose manifest is missing or not TOML contributes no names.
pub open spec fn spec_resolve_text(lock_text: Seq<char>, members: Seq<MemberFacts>) -> Result<LiveView, ResolveError> {
    match toml_document(lock_text) {
        Some(lock) => spec_resolve(lock, member_facts_docs(members)),
        None => Err(ResolveError::LockSyntax),
    }
}

/// A computed live set agrees with a specified resolve.
pub open spec fn resolve_matches(res: Result<LiveSet, ResolveError>, spec: Result<LiveView, ResolveError>) -> bool {
    match (res, spec) {
        (Ok(live), Ok(v)) => live@ == v,
        (Err(e), Err(f)) => e == f,
        _ => false,
    }
}

/// Compute the live set from a parsed lockfile and the parsed member
/// manifests.
pub fn resolve_docs(lock: &TomlValue, members: &Vec<MemberDoc>) -> (res: Result<LiveSet, ResolveError>)
    ensures
        resolve_matches(res, spec_resolve(lock@, member_docs(members@))),
{
    let mut live = match lock_live_set(lock) {
        Ok(live) => live,
        Err(e) => return Err(e),
    };
    let ghost ms = member_docs(members@);
    let ghost lock_names_set = live@.names;
    let mut i: usize = 0;
    while i < members.len()
        invariant
            i <= members@.len(),
            ms == member_docs(members@),
            live@.names == lock_names_set.union(members_names(ms.take(i as int))),
            live@.registry == lock_registry(lock_packages(lock@)),
            lock_names_set == lock_names(lock_packages(lock@)),
        decreases members@.len() - i,
    {
        assert(ms.take(i + 1).drop_last() == ms.take(i as int));
        assert(ms.take(i + 1).last() == (opt_doc(members@[i as int].manifest), members@[i as int].layout));
        match &members[i].manifest {
            Some(doc) => {
                let names = member_targets(doc, &members[i].layout);
                live.add_names(&names);
                proof {
                    lemma_normalized_set_of_normalized(member_target_names(doc@, members@[i as int].layout));
                }
                assert(live@.names =~= lock_names_set.union(members_names(ms.take(i + 1))));
            },
            None => {},
        }
        i += 1;
    }
    assert(ms.take(ms.len() as int) == ms);
    Ok(live)
}

/// Compute the live set from the text of `Cargo.lock` and what was read of the
/// workspace members. Fails (rather than returning an empty set) when the
/// lockfile is not TOML or lists no package — callers MUST treat failure as
/// "remove nothing", since an empty resolve would make every artifact look
/// unreachable. A member whose manifest is missing or is not TOML contributes
/// no names.
pub fn resolve(lock_text: &str, members: Vec<MemberFacts>) -> (res: Result<LiveSet, ResolveError>)
    ensures
        resolve_matches(res, spec_resolve_text(lock_text@, members@)),
        res matches Ok(live) ==> (toml_document(lock_text@) matches Some(lock) && lock_names(
            lock_packages(lock),
        ) != Set::<Seq<char>>::empty() && lock_names(lock_packages(lock)).subset_of(live@.names)),
{
    let ghost facts = members@;
    let lock = match parse_document(lock_text) {
        Some(doc) => doc,
        None => return Err(ResolveError::LockSyntax),
    };
    let mut docs: Vec<MemberDoc> = Vec::new();
    for m in it: members
        invariant
            it.seq() == facts,
            docs@.len() == it.index(),
            forall|j: int| 0 <= j < docs@.len() ==> (opt_doc((#[trigger] docs@[j]).manifest), docs@[j].layout)
                == (manifest_doc(facts[j].manifest), facts[j].layout),
    {
        assert(m == facts[it.index() as int]);
        let manifest = match &m.manifest {
            Some(text) => parse_document(text.as_str()),
            None => None,
        };
        docs.push(MemberDoc { manifest, layout: m.layout });
    }
    assert(member_docs(docs@) =~= member_facts_docs(facts));
    resolve_docs(&lock, &docs)
}

/// The workspace root: the nearest of the ancestors of a target directory
/// (listed nearest first) that holds a `Cargo.lock`.
pub fn workspace_root(ancestors: &Vec<String>, has_lockfile: &Vec<bool>) -> (res: Option<String>)
    requires
        ancestors@.len() == has_lockfile@.len(),
    ensures
        match res {
            Some(root) => exists|i: int|
                0 <= i < ancestors@.len() && has_lockfile@[i] && root@ == ancestors@[i]@ && forall|j: int|
                    0 <= j < i ==> !has_lockfile@[j],
            None => forall|i: int| 0 <= i < has_lockfile@.len() ==> !has_lockfile@[i],
        },
{
    let mut i: usize = 0;
    while i < ancestors.len()
        invariant
            i <= ancestors@.len(),
            ancestors@.len() == has_lockfile@.len(),
            forall|j: int| 0 <= j < i ==> !has_lockfile@[j],
        decreases ancestors@.len() - i,
    {
        if has_lockfile[i] {
            return Some(ancestors[i].clone());
        }
        i += 1;
    }
    None
}

// ---------------------------------------------------------------------------
// Laws
// ---------------------------------------------------------------------------

/// No member pattern that is kept has a `..` component: workspace members are
/// looked for inside the workspace only.
pub proof fn lemma_confined_patterns_stay_inside(patterns: Seq<Seq<char>>)
    ensures
        forall|i: int|
            0 <= i < confined(patterns).len() ==> !(#[trigger] confined(patterns)[i]).contains(
                ".."@,
            ),
    decreases patterns.len(),
{
    if patterns.len() > 0 {
        lemma_confined_patterns_stay_inside(patterns.drop_last());
        let prev = confined(patterns.drop_last());
        if !escapes(patterns.last()) {
            assert forall|i: int| 0 <= i < confined(patterns).len() implies !(#[trigger] confined(
                patterns,
            )[i]).contains(".."@) by {
                if i < prev.len() {
                    assert(confined(patterns)[i] == prev[i]);
                }
            }
        }
    }
}

/// Names match regardless of `-` versus `_`: a name and its normalized form are
/// live or not together.
pub proof fn lemma_name_liveness_ignores_dashes(live: LiveView, name: Seq<char>)
    ensures
        live.names.contains(spec_normalize(name)) == live.names.contains(
            spec_normalize(spec_normalize(name)),
        ),
{
    lemma_normalize_idempotent(name);
}

/// The resolve fails closed: it is refused exactly when the lockfile names no
/// package, and otherwise every package the lockfile names is live.
pub proof fn lemma_resolve_fails_closed(lock: TomlDoc, members: Seq<(Option<TomlDoc>, MemberLayout)>)
    ensures
        spec_resolve(lock, members) is Err <==> lock_names(lock_packages(lock)) == Set::<
            Seq<char>,
        >::empty(),
        spec_resolve(lock, members) matches Ok(v) ==> lock_names(lock_packages(lock)).subset_of(
            v.names,
        ),
{
}

/// Reading more members only ever adds names: the live names of a workspace
/// include those of any prefix of its member list.
pub proof fn lemma_members_only_add(ms: Seq<(Option<TomlDoc>, MemberLayout)>, n: int)
    requires
        0 <= n <= ms.len(),
    ensures
        members_names(ms.take(n)).subset_of(members_names(ms)),
    decreases ms.len(),
{
    if n < ms.len() {
        assert(ms.drop_last().take(n) == ms.take(n));
        lemma_members_only_add(ms.drop_last(), n);
    } else {
        assert(ms.take(n) == ms);
    }
}

// ---------------------------------------------------------------------------
// Laws of the lockfile
// ---------------------------------------------------------------------------

/// A lockfile entry with a name and a registry source: a git-index
/// (`registry+…`) or sparse (`sparse+…`) registry.
pub open spec fn registry_entry(p: TomlDoc) -> bool {
    &&& str_field(p, "name"@).len() > 0
    &&& spec_as_str(spec_get(p, "source"@)) matches Some(s) && (has_prefix(s, "registry+"@)
        || has_prefix(s, "sparse+"@))
}

/// The `"{name}-{version}"` identity of a lockfile entry.
pub open spec fn entry_identity(p: TomlDoc) -> Seq<char> {
    str_field(p, "name"@) + seq!['-'] + str_field(p, "version"@)
}

/// Every package a lockfile lists with a name is live by name, and, when it
/// comes from a registry, by its `name-version` identity, whatever else the
/// lockfile lists (other versions of the same name included).
pub proof fn lemma_lock_package_is_live(ps: Seq<TomlDoc>, i: int)
    requires
        0 <= i < ps.len(),
        str_field(ps[i], "name"@).len() > 0,
    ensures
        lock_names(ps).contains(spec_normalize(str_field(ps[i], "name"@))),
        registry_entry(ps[i]) ==> lock_registry(ps).contains(entry_identity(ps[i])),
    decreases ps.len(),
{
    if i < ps.len() - 1 {
        assert(ps.drop_last()[i] == ps[i]);
        lemma_lock_package_is_live(ps.drop_last(), i);
    }
}

/// Every live registry identity is the `name-version` of a registry package
/// the lockfile lists.
pub proof fn lemma_lock_registry_only_packages(ps: Seq<TomlDoc>, x: Seq<char>)
    requires
        lock_registry(ps).contains(x),
    ensures
        exists|i: int| 0 <= i < ps.len() && registry_entry(#[trigger] ps[i]) && entry_identity(ps[i]) == x,
    decreases ps.len(),
{
    let p = ps.last();
    let rest = lock_registry(ps.drop_last());
    if rest.contains(x) {
        lemma_lock_registry_only_packages(ps.drop_last(), x);
        let i = choose|i: int|
            0 <= i < ps.drop_last().len() && registry_entry(#[trigger] ps.drop_last()[i]) && entry_identity(
                ps.drop_last()[i],
            ) == x;
        assert(ps.drop_last()[i] == ps[i]);
    } else {
        assert(registry_entry(ps[ps.len() - 1]) && entry_identity(ps[ps.len() - 1]) == x);
    }
}

/// The resolve keeps every package of the lockfile: once `Cargo.lock` parses
/// and lists a package with a name, the resolve succeeds, that name is live,
/// and a registry package is live by `name-version`.
pub proof fn lemma_resolve_keeps_lock_packages(
    lock_text: Seq<char>,
    lock: TomlDoc,
    members: Seq<MemberFacts>,
    i: int,
)
    requires
        toml_document(lock_text) == Some(lock),
        0 <= i < lock_packages(lock).len(),
        str_field(lock_packages(lock)[i], "name"@).len() > 0,
    ensures
        spec_resolve_text(lock_text, members) matches Ok(v) && {
            &&& v.names.contains(spec_normalize(str_field(lock_packages(lock)[i], "name"@)))
            &&& registry_entry(lock_packages(lock)[i]) ==> v.registry.contains(
                entry_identity(lock_packages(lock)[i]),
            )
        },
{
    lemma_lock_package_is_live(lock_packages(lock), i);
}

// ---------------------------------------------------------------------------
// Laws of target reconstruction
// ---------------------------------------------------------------------------

/// The reconstructed targets of a member hold `n` (names compared normalized).
pub open spec fn names_target(doc: TomlDoc, layout: MemberLayout, n: Seq<char>) -> bool {
    member_target_names(doc, layout).map_values(|x: Seq<char>| spec_normalize(x)).contains(
        spec_normalize(n),
    )
}

/// A conventional target directory entry is kept as a target: a `*.rs` file
/// by its stem, a subdirectory holding `main.rs` by its name.
pub open spec fn entry_kept(doc: TomlDoc, layout: MemberLayout, e: DirEntryFacts) -> bool {
    let n = e.name@;
    &&& (e.is_file && n.len() > 3 && n.skip(n.len() - 3) == ".rs"@) ==> names_target(
        doc,
        layout,
        n.take(n.len() - 3),
    )
    &&& (!e.is_file && e.has_main_rs) ==> names_target(doc, layout, n)
}

/// Auto-discovery of one kind of target is on: `[package].<key>` is not
/// `false`.
pub open spec fn discovery_on(doc: TomlDoc, key: Seq<char>) -> bool {
    spec_as_bool(spec_get_in(spec_get(doc, "package"@), key)) != Some(false)
}

/// The string `[package].name`.
pub open spec fn declared_package_name(doc: TomlDoc) -> Option<Seq<char>> {
    spec_as_str(spec_get_in(spec_get(doc, "package"@), "name"@))
}

proof fn lemma_in_left(a: Seq<Seq<char>>, b: Seq<Seq<char>>, x: Seq<char>)
    requires
        a.contains(x),
    ensures
        (a + b).contains(x),
{
    let i = choose|i: int| 0 <= i < a.len() && a[i] == x;
    assert((a + b)[i] == x);
}

proof fn lemma_in_right(a: Seq<Seq<char>>, b: Seq<Seq<char>>, x: Seq<char>)
    requires
        b.contains(x),
    ensures
        (a + b).contains(x),
{
    let i = choose|i: int| 0 <= i < b.len() && b[i] == x;
    assert((a + b)[a.len() + i] == x);
}

/// One of the ten parts of a member's target names, in order.
pub open spec fn target_part(doc: TomlDoc, layout: MemberLayout, part: int) -> Seq<Seq<char>> {
    if part == 0 {
        opt_seq(lib_name(doc, layout))
    } else if part == 1 {
        if layout.has_main_rs {
            opt_seq(package_name(doc))
        } else {
            Seq::empty()
        }
    } else if part == 2 {
        section_names(doc, "bin"@)
    } else if part == 3 {
        section_names(doc, "example"@)
    } else if part == 4 {
        section_names(doc, "test"@)
    } else if part == 5 {
        section_names(doc, "bench"@)
    } else if part == 6 {
        auto_targets(doc, "autobins"@, layout.bins@)
    } else if part == 7 {
        auto_targets(doc, "autoexamples"@, layout.examples@)
    } else if part == 8 {
        auto_targets(doc, "autotests"@, layout.tests@)
    } else {
        auto_targets(doc, "autobenches"@, layout.benches@)
    }
}

/// A name in any part of a member's target names is a target of it.
proof fn lemma_part_is_target(doc: TomlDoc, layout: MemberLayout, x: Seq<char>, part: int)
    requires
        0 <= part < 10,
        target_part(doc, layout, part).contains(x),
    ensures
        names_target(doc, layout, x),
{
    let p0 = opt_seq(lib_name(doc, layout));
    let p1 = if layout.has_main_rs {
        opt_seq(package_name(doc))
    } else {
        Seq::empty()
    };
    let p2 = section_names(doc, "bin"@);
    let p3 = section_names(doc, "example"@);
    let p4 = section_names(doc, "test"@);
    let p5 = section_names(doc, "bench"@);
    let p6 = auto_targets(doc, "autobins"@, layout.bins@);
    let p7 = auto_targets(doc, "autoexamples"@, layout.examples@);
    let p8 = auto_targets(doc, "autotests"@, layout.tests@);
    let p9 = auto_targets(doc, "autobenches"@, layout.benches@);
    let w1 = p0 + p1;
    let w2 = w1 + p2;
    let w3 = w2 + p3;
    let w4 = w3 + p4;
    let w5 = w4 + p5;
    let w6 = w5 + p6;
    let w7 = w6 + p7;
    let w8 = w7 + p8;
    let w9 = w8 + p9;
    assert(w9 == member_target_names(doc, layout));
    if part == 0 {
        lemma_in_left(p0, p1, x);
    }
    if part == 1 {
        lemma_in_right(p0, p1, x);
    }
    if part <= 1 {
        lemma_in_left(w1, p2, x);
    }
    if part == 2 {
        lemma_in_right(w1, p2, x);
    }
    if part <= 2 {
        lemma_in_left(w2, p3, x);
    }
    if part == 3 {
        lemma_in_right(w2, p3, x);
    }
    if part <= 3 {
        lemma_in_left(w3, p4, x);
    }
    if part == 4 {
        lemma_in_right(w3, p4, x);
    }
    if part <= 4 {
        lemma_in_left(w4, p5, x);
    }
    if part == 5 {
        lemma_in_right(w4, p5, x);
    }
    if part <= 5 {
        lemma_in_left(w5, p6, x);
    }
    if part == 6 {
        lemma_in_right(w5, p6, x);
    }
    if part <= 6 {
        lemma_in_left(w6, p7, x);
    }
    if part == 7 {
        lemma_in_right(w6, p7, x);
    }
    if part <= 7 {
        lemma_in_left(w7, p8, x);
    }
    if part == 8 {
        lemma_in_right(w7, p8, x);
    }
    if part <= 8 {
        lemma_in_left(w8, p9, x);
    }
    if part == 9 {
        lemma_in_right(w8, p9, x);
    }
    let i = choose|i: int| 0 <= i < w9.len() && w9[i] == x;
    assert(w9.map_values(|y: Seq<char>| spec_normalize(y))[i] == spec_normalize(x));
}

proof fn lemma_dir_targets_has(es: Seq<DirEntryFacts>, m: int, n: Seq<char>)
    requires
        0 <= m < es.len(),
        spec_dir_target(es[m]) == Some(n),
    ensures
        dir_targets(es).contains(n),
    decreases es.len(),
{
    if m == es.len() - 1 {
        assert(dir_targets(es)[dir_targets(es.drop_last()).len() as int] == n);
    } else {
        assert(es.drop_last()[m] == es[m]);
        lemma_dir_targets_has(es.drop_last(), m, n);
        let i = choose|i: int| 0 <= i < dir_targets(es.drop_last()).len() && dir_targets(es.drop_last())[i] == n;
        assert(dir_targets(es)[i] == n);
    }
}

proof fn lemma_table_names_has(ts: Seq<TomlDoc>, m: int, n: Seq<char>)
    requires
        0 <= m < ts.len(),
        spec_as_str(spec_get(ts[m], "name"@)) == Some(n),
    ensures
        table_names(ts).contains(n),
    decreases ts.len(),
{
    if m == ts.len() - 1 {
        assert(table_names(ts)[table_names(ts.drop_last()).len() as int] == n);
    } else {
        assert(ts.drop_last()[m] == ts[m]);
        lemma_table_names_has(ts.drop_last(), m, n);
        let i = choose|i: int| 0 <= i < table_names(ts.drop_last()).len() && table_names(ts.drop_last())[i] == n;
        assert(table_names(ts)[i] == n);
    }
}

proof fn lemma_entries_kept(doc: TomlDoc, layout: MemberLayout, key: Seq<char>, es: Seq<DirEntryFacts>, part: int)
    requires
        6 <= part < 10,
        discovery_on(doc, key),
        auto_targets(doc, key, es) == target_part(doc, layout, part),
    ensures
        forall|m: int| 0 <= m < es.len() ==> entry_kept(doc, layout, #[trigger] es[m]),
{
    assert(auto_on(doc, key));
    assert forall|m: int| 0 <= m < es.len() implies entry_kept(doc, layout, #[trigger] es[m]) by {
        let e = es[m];
        let n = e.name@;
        if e.is_file && n.len() > 3 && n.skip(n.len() - 3) == ".rs"@ {
            lemma_dir_targets_has(es, m, n.take(n.len() - 3));
            lemma_part_is_target(doc, layout, n.take(n.len() - 3), part);
        }
        if !e.is_file && e.has_main_rs {
            lemma_dir_targets_has(es, m, n);
            lemma_part_is_target(doc, layout, n, part);
        }
    }
}

/// Every auto-discovered target is reconstructed: while discovery of a kind is
/// on, each `*.rs` file of its directory (`src/bin`, `examples`, `tests`,
/// `benches`) is a target by its stem, and each subdirectory holding `main.rs`
/// by its name.
pub proof fn lemma_discovered_targets_kept(doc: TomlDoc, layout: MemberLayout)
    ensures
        discovery_on(doc, "autobins"@) ==> forall|m: int|
            0 <= m < layout.bins@.len() ==> entry_kept(doc, layout, #[trigger] layout.bins@[m]),
        discovery_on(doc, "autoexamples"@) ==> forall|m: int|
            0 <= m < layout.examples@.len() ==> entry_kept(doc, layout, #[trigger] layout.examples@[m]),
        discovery_on(doc, "autotests"@) ==> forall|m: int|
            0 <= m < layout.tests@.len() ==> entry_kept(doc, layout, #[trigger] layout.tests@[m]),
        discovery_on(doc, "autobenches"@) ==> forall|m: int|
            0 <= m < layout.benches@.len() ==> entry_kept(doc, layout, #[trigger] layout.benches@[m]),
{
    if discovery_on(doc, "autobins"@) {
        lemma_entries_kept(doc, layout, "autobins"@, layout.bins@, 6);
    }
    if discovery_on(doc, "autoexamples"@) {
        lemma_entries_kept(doc, layout, "autoexamples"@, layout.examples@, 7);
    }
    if discovery_on(doc, "autotests"@) {
        lemma_entries_kept(doc, layout, "autotests"@, layout.tests@, 8);
    }
    if discovery_on(doc, "autobenches"@) {
        lemma_entries_kept(doc, layout, "autobenches"@, layout.benches@, 9);
    }
}

/// Every declared target is reconstructed: the library (`[lib].name`, else
/// the package name, when there is a `[lib]` table or a `src/lib.rs`), the
/// default binary of a `src/main.rs`, and every named `[[bin]]`, `[[example]]`,
/// `[[test]]` and `[[bench]]` table.
pub proof fn lemma_declared_targets_kept(doc: TomlDoc, layout: MemberLayout)
    ensures
        spec_as_str(spec_get_in(spec_get(doc, "lib"@), "name"@)) matches Some(n) ==> names_target(
            doc,
            layout,
            n,
        ),
        (spec_get(doc, "lib"@) is Some || layout.has_lib_rs) && spec_as_str(
            spec_get_in(spec_get(doc, "lib"@), "name"@),
        ) is None ==> (declared_package_name(doc) matches Some(p) ==> names_target(doc, layout, p)),
        layout.has_main_rs ==> (declared_package_name(doc) matches Some(p) ==> names_target(
            doc,
            layout,
            p,
        )),
        forall|m: int|
            0 <= m < section_names_items(doc, "bin"@).len() ==> (spec_as_str(
                spec_get(#[trigger] section_names_items(doc, "bin"@)[m], "name"@),
            ) matches Some(n) ==> names_target(doc, layout, n)),
        forall|m: int|
            0 <= m < section_names_items(doc, "example"@).len() ==> (spec_as_str(
                spec_get(#[trigger] section_names_items(doc, "example"@)[m], "name"@),
            ) matches Some(n) ==> names_target(doc, layout, n)),
        forall|m: int|
            0 <= m < section_names_items(doc, "test"@).len() ==> (spec_as_str(
                spec_get(#[trigger] section_names_items(doc, "test"@)[m], "name"@),
            ) matches Some(n) ==> names_target(doc, layout, n)),
        forall|m: int|
            0 <= m < section_names_items(doc, "bench"@).len() ==> (spec_as_str(
                spec_get(#[trigger] section_names_items(doc, "bench"@)[m], "name"@),
            ) matches Some(n) ==> names_target(doc, layout, n)),
{
    match spec_as_str(spec_get_in(spec_get(doc, "lib"@), "name"@)) {
        Some(n) => {
            assert(opt_seq(lib_name(doc, layout))[0] == n);
            lemma_part_is_target(doc, layout, n, 0);
        },
        None => {
            if spec_get(doc, "lib"@) is Some || layout.has_lib_rs {
                if let Some(p) = declared_package_name(doc) {
                    assert(opt_seq(lib_name(doc, layout))[0] == p);
                    lemma_part_is_target(doc, layout, p, 0);
                }
            }
        },
    }
    if layout.has_main_rs {
        if let Some(p) = declared_package_name(doc) {
            assert(opt_seq(package_name(doc))[0] == p);
            lemma_part_is_target(doc, layout, p, 1);
        }
    }
    lemma_section_kept(doc, layout, "bin"@, 2);
    lemma_section_kept(doc, layout, "example"@, 3);
    lemma_section_kept(doc, layout, "test"@, 4);
    lemma_section_kept(doc, layout, "bench"@, 5);
}

/// The tables of one target section (`[[bin]]`, ...), if it is an array.
pub open spec fn section_names_items(doc: TomlDoc, section: Seq<char>) -> Seq<TomlDoc> {
    match spec_as_array(spec_get(doc, section)) {
        Some(ts) => ts,
        None => Seq::empty(),
    }
}

proof fn lemma_section_kept(doc: TomlDoc, layout: MemberLayout, section: Seq<char>, part: int)
    requires
        2 <= part < 6,
        section_names(doc, section) == target_part(doc, layout, part),
    ensures
        forall|m: int|
            0 <= m < section_names_items(doc, section).len() ==> (spec_as_str(
                spec_get(#[trigger] section_names_items(doc, section)[m], "name"@),
            ) matches Some(n) ==> names_target(doc, layout, n)),
{
    let ts = section_names_items(doc, section);
    assert forall|m: int| 0 <= m < ts.len() implies (spec_as_str(spec_get(#[trigger] ts[m], "name"@)) matches Some(
        n,
    ) ==> names_target(doc, layout, n)) by {
        if let Some(n) = spec_as_str(spec_get(ts[m], "name"@)) {
            lemma_table_names_has(ts, m, n);
            lemma_part_is_target(doc, layout, n, part);
        }
    }
}

/// Normalizing keeps the length, turns every `-` into `_`, keeps every other
/// character, and leaves no `-`.
pub proof fn lemma_normalize_chars(name: Seq<char>)
    ensures
        spec_normalize(name).len() == name.len(),
        forall|i: int| 0 <= i < name.len() && name[i] == '-' ==> spec_normalize(name)[i] == '_',
        forall|i: int| 0 <= i < name.len() && name[i] != '-' ==> spec_normalize(name)[i] == name[i],
        !spec_normalize(name).contains('-'),
{
}

/// The member directories list the root when it is a package (or when the
/// patterns match nothing), every matched member directory, and nothing else,
/// each once.
pub proof fn lemma_member_dirs_complete(has_package: bool, root: Seq<char>, expanded: Seq<Seq<char>>)
    ensures
        spec_member_dirs(has_package, root, expanded).no_duplicates(),
        has_package || expanded.len() == 0 ==> spec_member_dirs(has_package, root, expanded).contains(root),
        forall|i: int| 0 <= i < expanded.len() ==> spec_member_dirs(has_package, root, expanded).contains(
            #[trigger] expanded[i],
        ),
        forall|d: Seq<char>|
            spec_member_dirs(has_package, root, expanded).contains(d) ==> d == root || expanded.contains(d),
{
    let all = if has_package {
        seq![root] + expanded
    } else {
        expanded
    };
    if all.len() == 0 {
        assert(seq![root][0] == root);
        assert forall|d: Seq<char>| seq![root].contains(d) implies d == root by {}
    } else {
        crate::text::lemma_dedup(all);
        let r = crate::text::dedup(all);
        if has_package {
            assert(all[0] == root);
            assert(all.to_set().contains(root));
        }
        assert forall|i: int| 0 <= i < expanded.len() implies r.contains(#[trigger] expanded[i]) by {
            if has_package {
                assert(all[i + 1] == expanded[i]);
            } else {
                assert(all[i] == expanded[i]);
            }
            assert(all.to_set().contains(expanded[i]));
        }
        assert forall|d: Seq<char>| r.contains(d) implies d == root || expanded.contains(d) by {
            assert(r.to_set().contains(d));
            assert(all.contains(d));
            let i = choose|i: int| 0 <= i < all.len() && all[i] == d;
            if has_package && i > 0 {
                assert(expanded[i - 1] == d);
            }
            if !has_package {
                assert(expanded[i] == d);
            }
        }
    }
}

} // verus!
