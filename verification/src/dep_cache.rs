//! The libraries that dependencies were built into, kept between builds.
//!
//! An entry is found by the scope of the project it was built for, the name of the
//! dependency, and a key that says what it was built from. An entry with another
//! key is a miss, and so is one whose library is gone.
use vstd::prelude::*;
use crate::names;
use crate::names::{Duplicate, NameMap};
use crate::text;

verus! {

/// One built dependency: what it was built from, and the library it became.
#[derive(Debug)]
pub struct CachedDep {
    pub key: String,
    pub lib: String,
}

/// The model of a [`CachedDep`].
pub struct CachedDepV {
    pub key: Seq<char>,
    pub lib: Seq<char>,
}

impl View for CachedDep {
    type V = CachedDepV;

    open spec fn view(&self) -> CachedDepV {
        CachedDepV { key: self.key@, lib: self.lib@ }
    }
}

impl Clone for CachedDep {
    fn clone(&self) -> (out: Self)
        ensures
            out@ == self@,
    {
        CachedDep { key: self.key.clone(), lib: self.lib.clone() }
    }
}

impl Duplicate for CachedDep {
    fn duplicate(&self) -> (out: Self) {
        self.clone()
    }
}

/// The built dependencies of every project scope.
#[derive(Debug)]
pub struct DepCache {
    projects: NameMap<NameMap<CachedDep>>,
}

impl View for DepCache {
    type V = Seq<(Seq<char>, Seq<(Seq<char>, CachedDepV)>)>;

    closed spec fn view(&self) -> Seq<(Seq<char>, Seq<(Seq<char>, CachedDepV)>)> {
        self.projects@
    }
}

impl Default for DepCache {
    /// An empty cache.
    fn default() -> (out: Self)
        ensures
            out@ == Seq::<(Seq<char>, Seq<(Seq<char>, CachedDepV)>)>::empty(),
    {
        DepCache { projects: NameMap::new() }
    }
}

/// The dependencies cached for a scope.
pub open spec fn scope_entries(
    cache: Seq<(Seq<char>, Seq<(Seq<char>, CachedDepV)>)>,
    scope: Seq<char>,
) -> Seq<(Seq<char>, CachedDepV)> {
    match names::lookup(cache, scope) {
        Some(m) => m,
        None => Seq::empty(),
    }
}

/// The library cached for a dependency under a key.
pub open spec fn library_for(
    cache: Seq<(Seq<char>, Seq<(Seq<char>, CachedDepV)>)>,
    scope: Seq<char>,
    name: Seq<char>,
    key: Seq<char>,
) -> Option<Seq<char>> {
    match names::lookup(scope_entries(cache, scope), name) {
        Some(c) => if c.key == key {
            Some(c.lib)
        } else {
            None
        },
        None => None,
    }
}

/// The cache with one more dependency, in place of what was cached under its name
/// in its scope.
pub open spec fn with_library(
    cache: Seq<(Seq<char>, Seq<(Seq<char>, CachedDepV)>)>,
    scope: Seq<char>,
    name: Seq<char>,
    key: Seq<char>,
    lib: Seq<char>,
) -> Seq<(Seq<char>, Seq<(Seq<char>, CachedDepV)>)> {
    names::put(
        cache,
        scope,
        names::put(scope_entries(cache, scope), name, CachedDepV { key, lib }),
    )
}

impl DepCache {
    /// The library recorded for a dependency under a key, whether or not it is
    /// still there.
    pub fn recorded(&self, scope: &str, name: &str, key: &str) -> (out: Option<String>)
        ensures
            text::opt(out) == library_for(self@, scope@, name@, key@),
    {
        proof {
            names::lemma_position(Seq::<(Seq<char>, CachedDepV)>::empty(), name@);
        }
        match self.projects.get(scope) {
            None => None,
            Some(deps) => match deps.get(name) {
                None => None,
                Some(c) => if text::same(c.key.as_str(), key) {
                    Some(c.lib.clone())
                } else {
                    None
                },
            },
        }
    }

    /// The library cached for a dependency under a key, if `is_there` finds it still
    /// there.
    pub fn hit(&self, scope: &str, name: &str, key: &str, is_there: impl Fn(&str) -> bool) -> (out:
        Option<String>)
        requires
            forall|s: &str| #[trigger] call_requires(is_there, (s,)),
        ensures
            match library_for(self@, scope@, name@, key@) {
                None => out is None,
                Some(lib) => match out {
                    Some(p) => p@ == lib && names::answered(is_there, lib, true),
                    None => names::answered(is_there, lib, false),
                },
            },
    {
        match self.recorded(scope, name, key) {
            None => None,
            Some(lib) => if is_there(lib.as_str()) {
                Some(lib)
            } else {
                None
            },
        }
    }

    /// Record the library a dependency was built into.
    pub fn insert(&mut self, scope: &str, name: &str, key: String, lib: String)
        ensures
            final(self)@ == with_library(old(self)@, scope@, name@, key@, lib@),
    {
        let mut deps: NameMap<CachedDep> = match self.projects.get(scope) {
            Some(m) => m.clone(),
            None => NameMap::new(),
        };
        deps.insert(name.to_owned(), CachedDep { key, lib });
        self.projects.insert(scope.to_owned(), deps);
    }

    /// The scopes with their dependencies, to be written out.
    pub fn projects(&self) -> (out: &NameMap<NameMap<CachedDep>>)
        ensures
            out@ == self@,
    {
        &self.projects
    }
}

/// What was recorded is found again under its key, and under no other.
pub proof fn law_hit_after_insert(
    cache: Seq<(Seq<char>, Seq<(Seq<char>, CachedDepV)>)>,
    scope: Seq<char>,
    name: Seq<char>,
    key: Seq<char>,
    lib: Seq<char>,
    other: Seq<char>,
)
    ensures
        library_for(with_library(cache, scope, name, key, lib), scope, name, key) == Some(lib),
        other != key ==> library_for(
            with_library(cache, scope, name, key, lib),
            scope,
            name,
            other,
        ) is None,
{
    let inner = scope_entries(cache, scope);
    let entry = CachedDepV { key, lib };
    names::law_put(cache, scope, names::put(inner, name, entry), scope);
    names::law_put(inner, name, entry, name);
}

/// Recording a dependency leaves every other one alone, in its own scope and in
/// the others.
pub proof fn law_insert_leaves_the_rest(
    cache: Seq<(Seq<char>, Seq<(Seq<char>, CachedDepV)>)>,
    scope: Seq<char>,
    name: Seq<char>,
    entry: CachedDepV,
    other_scope: Seq<char>,
    other_name: Seq<char>,
    key: Seq<char>,
)
    requires
        other_scope != scope || other_name != name,
    ensures
        library_for(
            with_library(cache, scope, name, entry.key, entry.lib),
            other_scope,
            other_name,
            key,
        ) == library_for(cache, other_scope, other_name, key),
{
    let inner = scope_entries(cache, scope);
    names::law_put(cache, scope, names::put(inner, name, entry), other_scope);
    names::law_put(inner, name, entry, other_name);
}

} // verus!
