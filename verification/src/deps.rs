//! External dependency resolution: where dependencies live, how they are built,
//! and what is left to do for each of them.
//!
//! A dependency is either a local path or a remote git repository. Remote ones are
//! pinned in `conjure.lock`; an unlocked one is cloned, resolved, and pinned during
//! the build. Building stays in manifest order and drives each dependency's own
//! build system - or conjure itself.
//!
//! All paths are anchored per project scope so co-built siblings and the root
//! project share one cache under the invocation root without colliding. Cache
//! entries are keyed by the resolved commit (remote) or a source fingerprint
//! (local), combined with the static/dynamic tag, so flips rebuild.
//!
//! Remote dependencies are always fetched (their trees supply headers), but they
//! are only built when the project actually links them. A static library archives
//! objects and never links, so its dependencies are fetched and then skipped.
use vstd::prelude::*;
use crate::dep_cache;
use crate::dep_cache::{CachedDepV, DepCache};
use crate::diag;
use crate::diag::{Fault, FaultV};
use crate::fingerprint;
use crate::fingerprint::{FileHash, Scan, ScanV};
use crate::git;
use crate::link;
use crate::lock;
use crate::lock::{LockFile, LockedDepV};
use crate::names;
use crate::names::NameMap;
use crate::order;
use crate::paths;
use crate::proj_parse;
use crate::proj_parse::{
    BuildSystem, BuildSystemV, CompileV, Dependency, DependencyV, Flags, FlagsV, Linkage,
    Project, ProjectType, ProjectV, Remote, RemoteV, Transport,
};
use crate::proj_write;
use crate::text;
use crate::toolchain;
use crate::toolchain::{Host, Os};

verus! {

// ---------------------------------------------------------------------------
// Places
// ---------------------------------------------------------------------------

/// The dep clone/cache home under a project root.
pub open spec fn home(root: Seq<char>) -> Seq<char> {
    paths::joined(paths::joined(root, ".conjure"@), "deps"@)
}

/// The dep clone/cache home under a project root.
pub fn cache_home(root: &str) -> (out: String)
    ensures
        out@ == home(root@),
{
    let a = paths::join(root, ".conjure");
    paths::join(a.as_str(), "deps")
}

/// The clone directory for a scope. `.` (the invocation root project) maps to the
/// cache directory itself.
pub open spec fn scoped(base: Seq<char>, scope: Seq<char>) -> Seq<char> {
    if scope == "."@ {
        base
    } else {
        paths::joined(base, scope)
    }
}

/// The clone directory for a scope.
pub fn scope_dir(base: &str, scope: &str) -> (out: String)
    ensures
        out@ == scoped(base@, scope@),
{
    if text::same(scope, ".") {
        base.to_owned()
    } else {
        paths::join(base, scope)
    }
}

/// The scope of a project, from what is left of its directory below the root.
pub open spec fn scope_from(below: Option<Seq<char>>) -> Seq<char> {
    match below {
        Some(p) => if p.len() > 0 {
            p
        } else {
            "."@
        },
        None => "."@,
    }
}

/// The scope of a project, from what is left of its directory below the root.
pub fn scope_below(below: Option<String>) -> (out: String)
    ensures
        out@ == scope_from(text::opt(below)),
{
    match below {
        Some(p) => if p.as_str().is_empty() {
            ".".to_owned()
        } else {
            p
        },
        None => ".".to_owned(),
    }
}

/// Per-project cache scope: the project dir relative to the invocation root. `"."`
/// for the top-level project, `"libs/sub1"` for a co-built sibling.
pub fn scope_of(root: &str, dir: &str) -> (out: String)
    ensures
        out@ == scope_from(paths::stripped(dir@, root@)),
        dir@ == root@ ==> out@ == "."@,
{
    scope_below(paths::strip(dir, root))
}

/// A dependency's source dir: local deps are relative to the project dir, remote
/// deps live under the scope's cache dir.
pub open spec fn source_dir(
    name: Seq<char>,
    d: DependencyV,
    dir: Seq<char>,
    root: Seq<char>,
    scope: Seq<char>,
) -> Seq<char> {
    match d.local {
        Some(p) => paths::joined(dir, p),
        None => paths::joined(scoped(home(root), scope), name),
    }
}

/// A dependency's source dir.
pub fn dep_dir(name: &str, dep: &Dependency, dir: &str, root: &str, scope: &str) -> (out: String)
    ensures
        out@ == source_dir(name@, dep@, dir@, root@, scope@),
{
    match &dep.local {
        Some(p) => paths::join(dir, p.as_str()),
        None => {
            let base = cache_home(root);
            let own = scope_dir(base.as_str(), scope);
            paths::join(own.as_str(), name)
        },
    }
}

/// The transport a dependency is cloned over; ssh unless it says otherwise.
pub open spec fn clone_transport(t: Option<Transport>) -> Seq<char> {
    match t {
        Some(Transport::Https) => "https"@,
        _ => "ssh"@,
    }
}

/// The clone URL of a dependency, or why it has none.
pub open spec fn clone_url(name: Seq<char>, d: DependencyV) -> Result<Seq<char>, Seq<char>> {
    match d.remote {
        Some(r) => Ok(
            git::url(
                proj_write::host_token(r),
                proj_write::remote_path(r),
                clone_transport(d.transport),
            ),
        ),
        None => Err("Dependency `"@ + name + "` has no remote"@),
    }
}

/// The clone URL for a remote dependency.
pub fn dep_url(dep: &Dependency, name: &str) -> (out: Result<String, String>)
    ensures
        match out {
            Ok(u) => clone_url(name@, dep@) == Ok::<Seq<char>, Seq<char>>(u@),
            Err(e) => clone_url(name@, dep@) == Err::<Seq<char>, Seq<char>>(e@),
        },
{
    match &dep.remote {
        Some(r) => {
            let t = match dep.transport {
                Some(Transport::Https) => "https",
                Some(Transport::Ssh) | None => "ssh",
            };
            Ok(git::remote_url(r.host(), r.path(), t))
        },
        None => Err(text::cat3("Dependency `", name, "` has no remote")),
    }
}

// ---------------------------------------------------------------------------
// Libraries
// ---------------------------------------------------------------------------

/// Whether a text is made of digits and dots.
pub open spec fn is_version(s: Seq<char>) -> bool {
    forall|i: int| 0 <= i < s.len() ==> ('0' <= #[trigger] s[i] && s[i] <= '9') || s[i] == '.'
}

/// Whether a file name is that of a shared library; elsewhere than on macOS and
/// Windows it may carry a version.
pub open spec fn names_shared(name: Seq<char>, os: Os) -> bool {
    match os {
        Os::MacOs => text::ends(name, ".dylib"@) || text::ends(name, ".so"@),
        Os::Windows => text::ends(name, ".dll"@),
        Os::Other => text::ends(name, ".so"@) || (text::cut_once(name, ".so."@) matches Some(
            (_, version),
        ) && is_version(version)),
    }
}

/// Whether a file name is that of a static library: `.a` everywhere, and `.lib`
/// under MSVC.
pub open spec fn names_static(name: Seq<char>, msvc_abi: bool) -> bool {
    text::ends(name, ".a"@) || (msvc_abi && text::ends(name, ".lib"@))
}

fn version_like(s: &str) -> (res: bool)
    ensures
        res == is_version(s@),
{
    let cs = text::chars_of(s);
    let mut i: usize = 0;
    while i < cs.len()
        invariant
            cs@ == s@,
            i <= cs@.len(),
            forall|j: int|
                0 <= j < i ==> ('0' <= #[trigger] s@[j] && s@[j] <= '9') || s@[j] == '.',
        decreases cs@.len() - i,
    {
        let c = cs[i];
        if !(('0' <= c && c <= '9') || c == '.') {
            return false;
        }
        i += 1;
    }
    true
}

/// Whether a file name is that of a shared library.
pub fn is_shared(name: &str, os: Os) -> (res: bool)
    ensures
        res == names_shared(name@, os),
{
    match os {
        Os::MacOs => text::ends_with(name, ".dylib") || text::ends_with(name, ".so"),
        Os::Windows => text::ends_with(name, ".dll"),
        Os::Other => text::ends_with(name, ".so") || match text::split_once(name, ".so.") {
            Some((_, version)) => version_like(version.as_str()),
            None => false,
        },
    }
}

/// Whether a file name is that of a static library.
pub fn is_static(name: &str, msvc_abi: bool) -> (res: bool)
    ensures
        res == names_static(name@, msvc_abi),
{
    text::ends_with(name, ".a") || (msvc_abi && text::ends_with(name, ".lib"))
}

/// The shared and the static library of a tree.
#[derive(Debug)]
pub struct Libs {
    pub shared: Option<String>,
    pub statik: Option<String>,
}

/// The model of [`Libs`].
pub struct LibsV {
    pub shared: Option<Seq<char>>,
    pub statik: Option<Seq<char>>,
}

impl View for Libs {
    type V = LibsV;

    open spec fn view(&self) -> LibsV {
        LibsV { shared: text::opt(self.shared), statik: text::opt(self.statik) }
    }
}

/// The paths of the files whose names pass a test, given as path and file name.
pub open spec fn paths_named(
    files: Seq<(Seq<char>, Seq<char>)>,
    test: spec_fn(Seq<char>) -> bool,
) -> Seq<Seq<char>>
    decreases files.len(),
{
    if files.len() == 0 {
        Seq::empty()
    } else {
        let front = paths_named(files.drop_last(), test);
        if test(files.last().1) {
            front.push(files.last().0)
        } else {
            front
        }
    }
}

/// The paths of the shared libraries among some files.
pub open spec fn shared_paths(files: Seq<(Seq<char>, Seq<char>)>, host: Host) -> Seq<Seq<char>> {
    paths_named(files, |name: Seq<char>| names_shared(name, host.os))
}

/// The paths of the static libraries among some files.
pub open spec fn static_paths(files: Seq<(Seq<char>, Seq<char>)>, host: Host) -> Seq<Seq<char>> {
    paths_named(files, |name: Seq<char>| names_static(name, host.msvc_abi))
}

/// The shared and the static library among some files: of each sort the one with
/// the least path.
pub open spec fn libs_among(files: Seq<(Seq<char>, Seq<char>)>, host: Host) -> LibsV {
    LibsV {
        shared: order::least(shared_paths(files, host)),
        statik: order::least(static_paths(files, host)),
    }
}

fn least_of(so_far: Option<String>, path: &str) -> (out: Option<String>)
    ensures
        text::opt(out) == Some(
            match so_far {
                Some(t) => if order::text_le(t@, path@) {
                    t@
                } else {
                    path@
                },
                None => path@,
            },
        ),
{
    match so_far {
        Some(t) => if order::no_later(t.as_str(), path) {
            Some(t)
        } else {
            Some(path.to_owned())
        },
        None => Some(path.to_owned()),
    }
}

/// Record the shared and the static library with the least path among the files of
/// a tree, given as path and file name.
pub fn collect_libs(files: &Vec<(String, String)>, host: &Host) -> (out: Libs)
    ensures
        out@ == libs_among(toolchain::pairs(files@), *host),
{
    let ghost all = toolchain::pairs(files@);
    let mut shared: Option<String> = None;
    let mut statik: Option<String> = None;
    let mut i: usize = 0;
    proof {
        assert(all.take(0) =~= Seq::empty());
    }
    while i < files.len()
        invariant
            i <= files@.len(),
            all == toolchain::pairs(files@),
            text::opt(shared) == order::least(shared_paths(all.take(i as int), *host)),
            text::opt(statik) == order::least(static_paths(all.take(i as int), *host)),
        decreases files@.len() - i,
    {
        let path = files[i].0.as_str();
        let name = files[i].1.as_str();
        proof {
            let front = all.take(i as int);
            assert(all.take(i + 1).drop_last() =~= front);
            assert(all.take(i + 1).last() == (path@, name@));
            let a = shared_paths(front, *host);
            let b = static_paths(front, *host);
            assert(a.push(path@).drop_last() =~= a);
            assert(b.push(path@).drop_last() =~= b);
        }
        if is_shared(name, host.os) {
            shared = least_of(shared, path);
        }
        if is_static(name, host.msvc_abi) {
            statik = least_of(statik, path);
        }
        i += 1;
    }
    proof {
        assert(all.take(i as int) =~= all);
    }
    Libs { shared, statik }
}

proof fn lemma_paths_named(
    files: Seq<(Seq<char>, Seq<char>)>,
    test: spec_fn(Seq<char>) -> bool,
    p: Seq<char>,
)
    ensures
        paths_named(files, test).contains(p) <==> exists|i: int|
            0 <= i < files.len() && (#[trigger] files[i]).0 == p && test(files[i].1),
    decreases files.len(),
{
    if files.len() > 0 {
        let front = files.drop_last();
        let n = files.len() - 1;
        lemma_paths_named(front, test, p);
        let a = paths_named(front, test);
        let b = paths_named(files, test);
        if a.contains(p) {
            let i = choose|i: int|
                0 <= i < front.len() && (#[trigger] front[i]).0 == p && test(front[i].1);
            assert(files[i].0 == p);
            let k = choose|k: int| 0 <= k < a.len() && a[k] == p;
            assert(b[k] == p);
        }
        if b.contains(p) && !a.contains(p) {
            let k = choose|k: int| 0 <= k < b.len() && b[k] == p;
            assert(k < a.len() ==> a[k] == p);
            assert(files[n].0 == p);
        }
        if test(files[n].1) && files[n].0 == p {
            assert(b[a.len() as int] == p);
        }
        if exists|i: int| 0 <= i < files.len() && (#[trigger] files[i]).0 == p && test(files[i].1) {
            let i = choose|i: int|
                0 <= i < files.len() && (#[trigger] files[i]).0 == p && test(files[i].1);
            if i < n {
                assert(front[i].0 == p);
            }
        }
    }
}

/// The library that matches the linkage policy: a static build takes a static one
/// and nothing else, any other prefers the shared one.
pub open spec fn chosen_lib(dir: Seq<char>, want_static: bool, libs: LibsV) -> Result<
    Seq<char>,
    FaultV,
> {
    if want_static {
        match (libs.statik, libs.shared) {
            (Some(p), _) => Ok(p),
            (None, Some(_)) => Err(
                diag::hinted(
                    "Static build requested but `"@ + dir + "` only produced a shared library"@,
                    "Build the dependency to also emit a static (.a) archive, or link it dynamically"@,
                ),
            ),
            (None, None) => Err(diag::plain("No library found in "@ + dir)),
        }
    } else {
        match (libs.shared, libs.statik) {
            (Some(p), _) => Ok(p),
            (None, Some(p)) => Ok(p),
            (None, None) => Err(diag::plain("No library found in "@ + dir)),
        }
    }
}

/// Pick the library matching the linkage policy among the files of a dependency.
pub fn find_lib(dir: &str, want_static: bool, files: &Vec<(String, String)>, host: &Host) -> (out:
    Result<String, Fault>)
    ensures
        match out {
            Ok(p) => chosen_lib(dir@, want_static, libs_among(toolchain::pairs(files@), *host))
                == Ok::<Seq<char>, FaultV>(p@),
            Err(e) => chosen_lib(dir@, want_static, libs_among(toolchain::pairs(files@), *host))
                == Err::<Seq<char>, FaultV>(e@),
        },
{
    let libs = collect_libs(files, host);
    if want_static {
        match (libs.statik, libs.shared) {
            (Some(p), _) => Ok(p),
            (None, Some(_)) => Err(
                Fault::hinted(
                    text::cat3(
                        "Static build requested but `",
                        dir,
                        "` only produced a shared library",
                    ),
                    "Build the dependency to also emit a static (.a) archive, or link it dynamically",
                ),
            ),
            (None, None) => Err(Fault::plain(text::cat("No library found in ", dir))),
        }
    } else {
        match (libs.shared, libs.statik) {
            (Some(p), _) => Ok(p),
            (None, Some(p)) => Ok(p),
            (None, None) => Err(Fault::plain(text::cat("No library found in ", dir))),
        }
    }
}

/// A static build never links a shared library: what is found for it is a file
/// named like a static one.
pub proof fn law_static_build_takes_static(
    dir: Seq<char>,
    files: Seq<(Seq<char>, Seq<char>)>,
    host: Host,
)
    ensures
        chosen_lib(dir, true, libs_among(files, host)) matches Ok(p) ==> exists|i: int|
            0 <= i < files.len() && (#[trigger] files[i]).0 == p && names_static(
                files[i].1,
                host.msvc_abi,
            ),
{
    order::law_least(static_paths(files, host));
    if let Ok(p) = chosen_lib(dir, true, libs_among(files, host)) {
        let test = |name: Seq<char>| names_static(name, host.msvc_abi);
        lemma_paths_named(files, test, p);
        let i = choose|i: int|
            0 <= i < files.len() && (#[trigger] files[i]).0 == p && test(files[i].1);
        assert(files[i].0 == p && names_static(files[i].1, host.msvc_abi));
    }
}

/// Which library is picked does not depend on the order in which a directory lists
/// its files.
pub proof fn law_library_ignores_order(
    dir: Seq<char>,
    want_static: bool,
    a: Seq<(Seq<char>, Seq<char>)>,
    b: Seq<(Seq<char>, Seq<char>)>,
    host: Host,
)
    requires
        a.to_multiset() == b.to_multiset(),
    ensures
        libs_among(a, host) == libs_among(b, host),
        chosen_lib(dir, want_static, libs_among(a, host)) == chosen_lib(
            dir,
            want_static,
            libs_among(b, host),
        ),
{
    broadcast use vstd::seq_lib::group_to_multiset_ensures;

    assert forall|x: (Seq<char>, Seq<char>)| a.contains(x) <==> b.contains(x) by {
        assert(a.contains(x) <==> a.to_multiset().count(x) > 0);
        assert(b.contains(x) <==> b.to_multiset().count(x) > 0);
    }
    lemma_same_paths(a, b, |name: Seq<char>| names_shared(name, host.os));
    lemma_same_paths(a, b, |name: Seq<char>| names_static(name, host.msvc_abi));
}

proof fn lemma_same_paths(
    a: Seq<(Seq<char>, Seq<char>)>,
    b: Seq<(Seq<char>, Seq<char>)>,
    test: spec_fn(Seq<char>) -> bool,
)
    requires
        forall|x: (Seq<char>, Seq<char>)| #[trigger] a.contains(x) <==> b.contains(x),
    ensures
        order::least(paths_named(a, test)) == order::least(paths_named(b, test)),
{
    assert forall|p: Seq<char>| #[trigger] paths_named(a, test).contains(p) <==> paths_named(
        b,
        test,
    ).contains(p) by {
        lemma_paths_named(a, test, p);
        lemma_paths_named(b, test, p);
        if paths_named(a, test).contains(p) {
            let i = choose|i: int|
                0 <= i < a.len() && (#[trigger] a[i]).0 == p && test(a[i].1);
            assert(a.contains(a[i]));
            let k = choose|k: int| 0 <= k < b.len() && b[k] == a[i];
            assert(b[k].0 == p);
        }
        if paths_named(b, test).contains(p) {
            let i = choose|i: int|
                0 <= i < b.len() && (#[trigger] b[i]).0 == p && test(b[i].1);
            assert(b.contains(b[i]));
            assert(a.contains(b[i]));
            let k = choose|k: int| 0 <= k < a.len() && a[k] == b[i];
            assert(a[k].0 == p);
        }
    }
    order::law_least_ignores_order(paths_named(a, test), paths_named(b, test));
}

// ---------------------------------------------------------------------------
// Flags
// ---------------------------------------------------------------------------

/// Whether a token is link-relevant (`-l`/`-L`, raw `-Wl,`, `-pthread`, or a
/// library file path) rather than a compiler-only flag.
pub open spec fn links(tok: Seq<char>) -> bool {
    ||| text::begins(tok, "-l"@)
    ||| text::begins(tok, "-L"@)
    ||| text::begins(tok, "-Wl,"@)
    ||| tok == "-pthread"@
    ||| text::ends(tok, ".a"@)
    ||| text::ends(tok, ".so"@)
    ||| text::ends(tok, ".dylib"@)
    ||| text::ends(tok, ".lib"@)
    ||| text::ends(tok, ".dll"@)
}

/// Whether a token is link-relevant rather than a compiler-only flag.
pub fn is_link_flag(tok: &str) -> (res: bool)
    ensures
        res == links(tok@),
{
    text::starts_with(tok, "-l") || text::starts_with(tok, "-L") || text::starts_with(tok, "-Wl,")
        || text::same(tok, "-pthread") || text::ends_with(tok, ".a") || text::ends_with(tok, ".so")
        || text::ends_with(tok, ".dylib") || text::ends_with(tok, ".lib") || text::ends_with(
        tok,
        ".dll",
    )
}

/// The compile flags among some tokens.
pub open spec fn compile_part(toks: Seq<Seq<char>>) -> Seq<Seq<char>> {
    toks.filter(|t: Seq<char>| !links(t))
}

/// The link inputs among some tokens.
pub open spec fn link_part(toks: Seq<Seq<char>>) -> Seq<Seq<char>> {
    toks.filter(|t: Seq<char>| links(t))
}

/// Split pkg-config output into `(cflags, libs)`: `-l`/`-L`/`-Wl,`/`-pthread` are
/// link inputs, everything else is a compile flag.
pub fn split_cflags_and_libs(output: &str) -> (out: (Vec<String>, Vec<String>))
    ensures
        text::texts(out.0@) == compile_part(text::white_words(output@)),
        text::texts(out.1@) == link_part(text::white_words(output@)),
{
    let toks = text::split_whitespace(output);
    let ghost all = text::white_words(output@);
    let mut cflags = text::none();
    let mut libs = text::none();
    let mut i: usize = 0;
    proof {
        reveal(Seq::filter);
        assert(all.take(0) =~= Seq::empty());
    }
    while i < toks.len()
        invariant
            i <= toks@.len(),
            all == text::texts(toks@),
            text::texts(cflags@) == compile_part(all.take(i as int)),
            text::texts(libs@) == link_part(all.take(i as int)),
        decreases toks@.len() - i,
    {
        proof {
            reveal(Seq::filter);
            assert(all.take(i + 1).drop_last() =~= all.take(i as int));
            assert(all.take(i + 1).last() == toks@[i as int]@);
        }
        if is_link_flag(toks[i].as_str()) {
            text::push_text(&mut libs, toks[i].as_str());
        } else {
            text::push_text(&mut cflags, toks[i].as_str());
        }
        i += 1;
    }
    proof {
        assert(all.take(i as int) =~= all);
    }
    (cflags, libs)
}

/// Every token of pkg-config's output is either a compile flag or a link input,
/// never both, and none is lost or made up.
pub proof fn law_flags_are_parted(toks: Seq<Seq<char>>, t: Seq<char>)
    ensures
        toks.contains(t) <==> compile_part(toks).contains(t) || link_part(toks).contains(t),
        !(compile_part(toks).contains(t) && link_part(toks).contains(t)),
        compile_part(toks).len() + link_part(toks).len() == toks.len(),
    decreases toks.len(),
{
    reveal(Seq::filter);
    if toks.len() > 0 {
        let front = toks.drop_last();
        law_flags_are_parted(front, t);
        let c = compile_part(toks);
        let l = link_part(toks);
        let fc = compile_part(front);
        let fl = link_part(front);
        assert(toks =~= front.push(toks.last()));
        lemma_contains_push(front, toks.last(), t);
        lemma_contains_push(fc, toks.last(), t);
        lemma_contains_push(fl, toks.last(), t);
        lemma_part_pred(front, t);
    }
}

proof fn lemma_contains_push(v: Seq<Seq<char>>, last: Seq<char>, t: Seq<char>)
    ensures
        v.push(last).contains(t) <==> v.contains(t) || t == last,
{
    let w = v.push(last);
    if v.contains(t) {
        let i = choose|i: int| 0 <= i < v.len() && v[i] == t;
        assert(w[i] == t);
    }
    if t == last {
        assert(w[v.len() as int] == t);
    }
    if w.contains(t) {
        let i = choose|i: int| 0 <= i < w.len() && w[i] == t;
        if i < v.len() {
            assert(v[i] == t);
        }
    }
}

proof fn lemma_part_pred(toks: Seq<Seq<char>>, t: Seq<char>)
    ensures
        compile_part(toks).contains(t) ==> !links(t),
        link_part(toks).contains(t) ==> links(t),
{
    let c = |t: Seq<char>| !links(t);
    let l = |t: Seq<char>| links(t);
    if compile_part(toks).contains(t) {
        let i = choose|i: int| 0 <= i < compile_part(toks).len() && compile_part(toks)[i] == t;
        toks.lemma_filter_pred(c, i);
    }
    if link_part(toks).contains(t) {
        let i = choose|i: int| 0 <= i < link_part(toks).len() && link_part(toks)[i] == t;
        toks.lemma_filter_pred(l, i);
    }
}

// ---------------------------------------------------------------------------
// Building one dependency
// ---------------------------------------------------------------------------

/// How to build a dep: an explicit `build:` wins; otherwise a dep-root
/// `conjure.kdl` means build it with conjure, else the make default.
pub open spec fn system_for(d: DependencyV, has_manifest: bool) -> BuildSystemV {
    match d.build {
        Some(b) => b,
        None => if has_manifest {
            BuildSystemV::Conjure(None)
        } else {
            BuildSystemV::Make(None)
        },
    }
}

/// How to build a dependency, given whether its root holds a `conjure.kdl`.
pub fn dep_build_system(dep: &Dependency, has_manifest: bool) -> (out: BuildSystem)
    ensures
        out@ == system_for(dep@, has_manifest),
{
    match &dep.build {
        Some(b) => b.clone(),
        None => if has_manifest {
            BuildSystem::Conjure(None)
        } else {
            BuildSystem::Make(None)
        },
    }
}

/// The headline of a dependency's build, for a target of it where one is asked
/// for.
pub open spec fn headline(
    dir: Seq<char>,
    name: Seq<char>,
    target: Option<Seq<char>>,
    threads: nat,
) -> Seq<char> {
    match target {
        Some(t) => "Building "@ + t + " ["@ + name + "] ["@ + dir + "] using "@ + text::decimal(
            threads,
        ) + " threads"@,
        None => "Building "@ + dir + " ["@ + name + "] using "@ + text::decimal(threads)
            + " threads"@,
    }
}

/// The headline of a build system's build of a dependency.
pub open spec fn build_headline(dir: Seq<char>, system: BuildSystemV, threads: nat) -> Seq<char> {
    let name = proj_parse::system_name(system);
    match system {
        BuildSystemV::Conjure(t) => headline(dir, name, t, threads),
        BuildSystemV::Make(t) => headline(dir, name, t, threads),
        BuildSystemV::CMake(t) => headline(dir, name, t, threads),
        BuildSystemV::Autotools(t) => headline(dir, name, t, threads),
        BuildSystemV::Meson(t) => headline(dir, name, t, threads),
        BuildSystemV::Ninja(t) => headline(dir, name, t, threads),
        BuildSystemV::Xmake(t) => headline(dir, name, t, threads),
        BuildSystemV::Just(t) => "Building "@ + t + " ["@ + name + "] ["@ + dir + "]"@,
        BuildSystemV::Custom(_) => "Building "@ + dir + " ["@ + name + "]"@,
    }
}

/// The commands that build a dependency, each with the directory it runs in. A
/// dependency that conjure builds itself has none.
pub open spec fn build_commands(dir: Seq<char>, system: BuildSystemV, threads: nat) -> Seq<
    (Seq<char>, Seq<Seq<char>>),
> {
    let n = text::decimal(threads);
    let jobs = "-j"@ + n;
    let inner = paths::joined(dir, "build"@);
    match system {
        BuildSystemV::Conjure(_) => Seq::empty(),
        BuildSystemV::Make(t) => seq![(dir, seq!["make"@, jobs] + toolchain::listed(t))],
        BuildSystemV::CMake(t) => seq![
            (dir, seq!["cmake"@, "-S"@, "."@, "-B"@, "build"@]),
            (
                inner,
                seq!["cmake"@, "--build"@, "."@, "--parallel"@, n] + (match t {
                    Some(x) => seq!["--target"@, x],
                    None => Seq::empty(),
                }),
            ),
        ],
        BuildSystemV::Autotools(t) => seq![
            (dir, seq!["./configure"@]),
            (dir, seq!["make"@, jobs] + toolchain::listed(t)),
        ],
        BuildSystemV::Meson(t) => seq![
            (dir, seq!["meson"@, "setup"@, "build"@, "."@]),
            (inner, seq!["meson"@, "compile"@, "-j"@, n] + toolchain::listed(t)),
        ],
        BuildSystemV::Ninja(t) => seq![(dir, seq!["ninja"@, jobs] + toolchain::listed(t))],
        BuildSystemV::Xmake(t) => seq![(dir, seq!["xmake"@, jobs] + toolchain::listed(t))],
        BuildSystemV::Just(t) => seq![(dir, seq!["just"@, t])],
        BuildSystemV::Custom(cmd) => seq![(dir, seq!["sh"@, "-c"@, cmd])],
    }
}

/// How a dependency is built by its own build system.
#[derive(Debug)]
pub struct DepBuild {
    pub header: String,
    pub commands: Vec<(String, Vec<String>)>,
}

fn targeted(dir: &str, name: &str, target: &Option<String>, threads: usize) -> (out: String)
    ensures
        out@ == headline(dir@, name@, text::opt(*target), threads as nat),
{
    let n = text::decimal_text(threads);
    match target {
        Some(t) => {
            let mut out = text::cat3("Building ", t.as_str(), " [");
            out.append(name);
            out.append("] [");
            out.append(dir);
            out.append("] using ");
            out.append(n.as_str());
            out.append(" threads");
            out
        },
        None => {
            let mut out = text::cat3("Building ", dir, " [");
            out.append(name);
            out.append("] using ");
            out.append(n.as_str());
            out.append(" threads");
            out
        },
    }
}

fn push_listed(argv: &mut Vec<String>, t: &Option<String>)
    ensures
        text::texts(final(argv)@) == text::texts(old(argv)@) + toolchain::listed(text::opt(*t)),
{
    let ghost before = text::texts(argv@);
    if let Some(x) = t {
        text::push_text(argv, x.as_str());
    }
    proof {
        assert(text::texts(argv@) =~= before + toolchain::listed(text::opt(*t)));
    }
}

fn with_jobs(tool: &str, threads: usize, t: &Option<String>) -> (argv: Vec<String>)
    ensures
        text::texts(argv@) == seq![tool@, "-j"@ + text::decimal(threads as nat)]
            + toolchain::listed(text::opt(*t)),
{
    let n = text::decimal_text(threads);
    let jobs = text::cat("-j", n.as_str());
    let mut argv = text::one(tool);
    text::push_text(&mut argv, jobs.as_str());
    push_listed(&mut argv, t);
    argv
}

fn add_command(v: &mut Vec<(String, Vec<String>)>, dir: &str, argv: Vec<String>)
    ensures
        toolchain::steps(final(v)@) == toolchain::steps(old(v)@).push((dir@, text::texts(argv@))),
{
    let ghost before = v@;
    let ghost args = text::texts(argv@);
    v.push((dir.to_owned(), argv));
    proof {
        assert(toolchain::steps(v@) =~= toolchain::steps(before).push((dir@, args)));
    }
}

fn no_commands() -> (out: Vec<(String, Vec<String>)>)
    ensures
        toolchain::steps(out@) == Seq::<(Seq<char>, Seq<Seq<char>>)>::empty(),
{
    let out: Vec<(String, Vec<String>)> = Vec::new();
    proof {
        assert(toolchain::steps(out@) =~= Seq::<(Seq<char>, Seq<Seq<char>>)>::empty());
    }
    out
}

fn commands_for(dir: &str, system: &BuildSystem, threads: usize) -> (out: Vec<
    (String, Vec<String>),
>)
    ensures
        toolchain::steps(out@) == build_commands(dir@, system@, threads as nat),
{
    let mut out = no_commands();
    match system {
        BuildSystem::Conjure(_) => {},
        BuildSystem::Make(t) => {
            add_command(&mut out, dir, with_jobs("make", threads, t));
            proof {
                assert(toolchain::steps(out@) =~= build_commands(dir@, system@, threads as nat));
            }
        },
        BuildSystem::CMake(t) => {
            let mut argv = text::one("cmake");
            text::push_text(&mut argv, "-S");
            text::push_text(&mut argv, ".");
            text::push_text(&mut argv, "-B");
            text::push_text(&mut argv, "build");
            proof {
                assert(text::texts(argv@) =~= seq!["cmake"@, "-S"@, "."@, "-B"@, "build"@]);
            }
            add_command(&mut out, dir, argv);
            let n = text::decimal_text(threads);
            let mut argv = text::one("cmake");
            text::push_text(&mut argv, "--build");
            text::push_text(&mut argv, ".");
            text::push_text(&mut argv, "--parallel");
            text::push_text(&mut argv, n.as_str());
            let ghost before = text::texts(argv@);
            proof {
                assert(before =~= seq!["cmake"@, "--build"@, "."@, "--parallel"@, n@]);
            }
            if let Some(x) = t {
                text::push_text(&mut argv, "--target");
                text::push_text(&mut argv, x.as_str());
                proof {
                    assert(text::texts(argv@) =~= before + seq!["--target"@, x@]);
                }
            } else {
                proof {
                    assert(text::texts(argv@) =~= before + Seq::empty());
                }
            }
            let inner = paths::join(dir, "build");
            add_command(&mut out, inner.as_str(), argv);
            proof {
                assert(toolchain::steps(out@) =~= build_commands(dir@, system@, threads as nat));
            }
        },
        BuildSystem::Autotools(t) => {
            add_command(&mut out, dir, text::one("./configure"));
            add_command(&mut out, dir, with_jobs("make", threads, t));
            proof {
                assert(toolchain::steps(out@) =~= build_commands(dir@, system@, threads as nat));
            }
        },
        BuildSystem::Meson(t) => {
            let mut argv = text::one("meson");
            text::push_text(&mut argv, "setup");
            text::push_text(&mut argv, "build");
            text::push_text(&mut argv, ".");
            proof {
                assert(text::texts(argv@) =~= seq!["meson"@, "setup"@, "build"@, "."@]);
            }
            add_command(&mut out, dir, argv);
            let n = text::decimal_text(threads);
            let mut argv = text::one("meson");
            text::push_text(&mut argv, "compile");
            text::push_text(&mut argv, "-j");
            text::push_text(&mut argv, n.as_str());
            proof {
                assert(text::texts(argv@) =~= seq!["meson"@, "compile"@, "-j"@, n@]);
            }
            push_listed(&mut argv, t);
            let inner = paths::join(dir, "build");
            add_command(&mut out, inner.as_str(), argv);
            proof {
                assert(toolchain::steps(out@) =~= build_commands(dir@, system@, threads as nat));
            }
        },
        BuildSystem::Ninja(t) => {
            add_command(&mut out, dir, with_jobs("ninja", threads, t));
            proof {
                assert(toolchain::steps(out@) =~= build_commands(dir@, system@, threads as nat));
            }
        },
        BuildSystem::Xmake(t) => {
            add_command(&mut out, dir, with_jobs("xmake", threads, t));
            proof {
                assert(toolchain::steps(out@) =~= build_commands(dir@, system@, threads as nat));
            }
        },
        BuildSystem::Just(t) => {
            let mut argv = text::one("just");
            text::push_text(&mut argv, t.as_str());
            proof {
                assert(text::texts(argv@) =~= seq!["just"@, t@]);
            }
            add_command(&mut out, dir, argv);
            proof {
                assert(toolchain::steps(out@) =~= build_commands(dir@, system@, threads as nat));
            }
        },
        BuildSystem::Custom(cmd) => {
            let mut argv = text::one("sh");
            text::push_text(&mut argv, "-c");
            text::push_text(&mut argv, cmd.as_str());
            proof {
                assert(text::texts(argv@) =~= seq!["sh"@, "-c"@, cmd@]);
            }
            add_command(&mut out, dir, argv);
            proof {
                assert(toolchain::steps(out@) =~= build_commands(dir@, system@, threads as nat));
            }
        },
    }
    out
}

fn header_for(dir: &str, system: &BuildSystem, threads: usize) -> (out: String)
    requires
        proj_parse::nameable(system@),
    ensures
        out@ == build_headline(dir@, system@, threads as nat),
{
    let name = system.label();
    match system {
        BuildSystem::Conjure(t) => targeted(dir, name.as_str(), t, threads),
        BuildSystem::Make(t) => targeted(dir, name.as_str(), t, threads),
        BuildSystem::CMake(t) => targeted(dir, name.as_str(), t, threads),
        BuildSystem::Autotools(t) => targeted(dir, name.as_str(), t, threads),
        BuildSystem::Meson(t) => targeted(dir, name.as_str(), t, threads),
        BuildSystem::Ninja(t) => targeted(dir, name.as_str(), t, threads),
        BuildSystem::Xmake(t) => targeted(dir, name.as_str(), t, threads),
        BuildSystem::Just(t) => {
            let mut out = text::cat3("Building ", t.as_str(), " [");
            out.append(name.as_str());
            out.append("] [");
            out.append(dir);
            out.append("]");
            out
        },
        BuildSystem::Custom(_) => {
            let mut out = text::cat3("Building ", dir, " [");
            out.append(name.as_str());
            out.append("]");
            out
        },
    }
}

/// The fault of a conjure dependency that is handed to an external build system.
pub open spec fn misplaced(dir: Seq<char>) -> FaultV {
    diag::hinted(
        "Conjure dependency reached the external build path in `"@ + dir + "`"@,
        "This is a bug: conjure deps are dispatched before `build_dep`"@,
    )
}

/// How to run an external build system for a dependency.
pub fn build_dep(dir: &str, system: &BuildSystem, threads: usize) -> (out: Result<DepBuild, Fault>)
    requires
        proj_parse::nameable(system@),
    ensures
        match out {
            Ok(b) => !(system@ is Conjure) && b.header@ == build_headline(
                dir@,
                system@,
                threads as nat,
            ) && toolchain::steps(b.commands@) == build_commands(dir@, system@, threads as nat),
            Err(e) => system@ is Conjure && e@ == misplaced(dir@),
        },
{
    match system {
        BuildSystem::Conjure(_) => Err(
            Fault::hinted(
                text::cat3("Conjure dependency reached the external build path in `", dir, "`"),
                "This is a bug: conjure deps are dispatched before `build_dep`",
            ),
        ),
        _ => Ok(
            DepBuild {
                header: header_for(dir, system, threads),
                commands: commands_for(dir, system, threads),
            },
        ),
    }
}

// ---------------------------------------------------------------------------
// Dependencies that conjure builds
// ---------------------------------------------------------------------------

/// Directories, each resolved against a base.
pub open spec fn joined_all(base: Seq<char>, dirs: Seq<Seq<char>>) -> Seq<Seq<char>> {
    dirs.map_values(|d: Seq<char>| paths::joined(base, d))
}

/// Directories, each resolved against a base.
pub fn join_all(base: &str, dirs: &[String]) -> (out: Vec<String>)
    ensures
        text::texts(out@) == joined_all(base@, text::texts(dirs@)),
{
    let ghost want = joined_all(base@, text::texts(dirs@));
    let mut out = text::none();
    let mut i: usize = 0;
    while i < dirs.len()
        invariant
            i <= dirs@.len(),
            want == joined_all(base@, text::texts(dirs@)),
            text::texts(out@) == want.take(i as int),
        decreases dirs@.len() - i,
    {
        let full = paths::join(base, dirs[i].as_str());
        text::push_text(&mut out, full.as_str());
        i += 1;
        proof {
            assert(want.take(i as int) =~= want.take(i - 1).push(want[i - 1]));
        }
    }
    proof {
        assert(want.take(i as int) =~= want);
    }
    out
}

/// The include directories of a manifestless dependency: the parent's, rooted in
/// the parent's directory, then its own.
pub open spec fn inherited_includes(c: CompileV, d: DependencyV, parent_dir: Seq<char>) -> Seq<
    Seq<char>,
> {
    joined_all(parent_dir, proj_parse::flags_or_none(c.includes)) + (match d.includes {
        Some(v) => text::filled(v),
        None => Seq::empty(),
    })
}

/// The project of a dependency without a manifest: a library with the parent's
/// settings, its own sources where it names them, and the includes of both.
pub open spec fn manifestless(
    parent: ProjectV,
    d: DependencyV,
    name: Seq<char>,
    parent_dir: Seq<char>,
) -> Result<ProjectV, Seq<char>> {
    match parent.compile {
        None => Err("Parent project has no compile section to inherit"@),
        Some(c) => {
            let inc = inherited_includes(c, d, parent_dir);
            Ok(
                ProjectV {
                    name,
                    language: parent.language,
                    ty: ProjectType::Library,
                    link: parent.link,
                    compile: Some(
                        CompileV {
                            src: Some(
                                FlagsV::Append(
                                    match d.src {
                                        Some(v) => v,
                                        None => proj_parse::roots(c.src),
                                    },
                                ),
                            ),
                            includes: if inc.len() == 0 {
                                None
                            } else {
                                Some(FlagsV::Append(inc))
                            },
                            ..c
                        },
                    ),
                    ..proj_parse::no_project()
                },
            )
        },
    }
}

/// Synthesize a manifestless dep project: the parent's compile settings inherited,
/// with `src` from `dep.src` (or the parent's roots) and includes absolutized
/// against the parent dir plus the dep's own includes.
pub fn manifestless_project(parent: &Project, dep: &Dependency, name: &str, parent_dir: &str) -> (out:
    Result<Project, String>)
    ensures
        match out {
            Ok(p) => manifestless(parent@, dep@, name@, parent_dir@) == Ok::<ProjectV, Seq<char>>(
                p@,
            ),
            Err(e) => manifestless(parent@, dep@, name@, parent_dir@) == Err::<
                ProjectV,
                Seq<char>,
            >(e@),
        },
{
    match &parent.compile {
        None => Err("Parent project has no compile section to inherit".to_owned()),
        Some(base) => {
            let src = match &dep.src {
                Some(v) => text::copy_texts(v.as_slice()),
                None => base.src_roots(),
            };
            let own = proj_parse::list_or_none(&base.includes);
            let mut inc = join_all(parent_dir, own.as_slice());
            let ghost rooted = text::texts(inc@);
            match &dep.includes {
                Some(v) => {
                    let more = text::filled_texts(v.as_slice());
                    text::extend_texts(&mut inc, more.as_slice());
                },
                None => {
                    proof {
                        assert(rooted + Seq::<Seq<char>>::empty() =~= rooted);
                    }
                },
            }
            proof {
                assert(text::texts(inc@).len() == inc@.len());
            }
            let mut compile = base.clone();
            compile.src = Some(Flags::Append(src));
            compile.includes = if inc.len() == 0 {
                None
            } else {
                Some(Flags::Append(inc))
            };
            let mut child = Project::default();
            child.name = name.to_owned();
            child.language = parent.language;
            child.ty = ProjectType::Library;
            child.link = parent.link;
            child.compile = Some(compile);
            Ok(child)
        },
    }
}

/// The profile a project is built under when a name is asked for: the name where
/// the project defines it, else `default`.
pub open spec fn profile_built(p: ProjectV, profile: Option<Seq<char>>) -> Seq<char> {
    match profile {
        Some(n) => if proj_parse::profile_of(p, n) is Some {
            n
        } else {
            "default"@
        },
        None => "default"@,
    }
}

/// The effective project when a profile name is asked for; a name the project does
/// not define builds it as it is.
pub open spec fn effective_under(p: ProjectV, profile: Option<Seq<char>>) -> ProjectV {
    proj_parse::effective(
        p,
        match profile {
            Some(n) => proj_parse::profile_of(p, n),
            None => None,
        },
    )
}

/// The profile a project is built under when a name is asked for.
pub fn built_profile(project: &Project, profile: Option<&str>) -> (out: String)
    ensures
        out@ == profile_built(project@, text::opt(profile)),
{
    match profile {
        Some(n) => match project.profile(n) {
            Some(_) => n.to_owned(),
            None => "default".to_owned(),
        },
        None => "default".to_owned(),
    }
}

/// The effective project when a profile name is asked for.
pub fn under_profile(project: &Project, profile: Option<&str>) -> (out: Project)
    ensures
        out@ == effective_under(project@, text::opt(profile)),
{
    match profile {
        Some(n) => match project.profile(n) {
            Some((_, p)) => project.with_profile(Some(p)),
            None => project.with_profile(None),
        },
        None => project.with_profile(None),
    }
}

/// The key of a local dependency's sources: that of its whole tree, or the
/// fingerprint of the project that conjure builds it as.
pub open spec fn local_key(
    system: BuildSystemV,
    files: Seq<(Seq<char>, u64)>,
    child: ProjectV,
    profile: Seq<char>,
    commits: Seq<Seq<char>>,
    scan: ScanV,
) -> Result<Seq<char>, Seq<char>> {
    if system is Conjure {
        fingerprint::fingerprint_of(
            effective_under(child, Some(profile)),
            profile_built(child, Some(profile)),
            commits,
            Seq::empty(),
            scan,
        )
    } else {
        Ok(fingerprint::dir_key_of(files))
    }
}

/// The key of a local dependency's sources, from how it is built, the files of its
/// tree, and the project, pins and files that conjure would build.
pub fn local_dep_fingerprint(
    system: &BuildSystem,
    files: &Vec<FileHash>,
    child: &Project,
    profile: &str,
    commits: &[String],
    scan: &Scan,
) -> (out: Result<String, String>)
    ensures
        match out {
            Ok(k) => local_key(
                system@,
                fingerprint::hashes(files@),
                child@,
                profile@,
                text::texts(commits@),
                scan@,
            ) == Ok::<Seq<char>, Seq<char>>(k@),
            Err(e) => local_key(
                system@,
                fingerprint::hashes(files@),
                child@,
                profile@,
                text::texts(commits@),
                scan@,
            ) == Err::<Seq<char>, Seq<char>>(e@),
        },
{
    match system {
        BuildSystem::Conjure(_) => {
            let eff = under_profile(child, Some(profile));
            let built = built_profile(child, Some(profile));
            let none = text::none();
            fingerprint::fingerprint(&eff, built.as_str(), commits, none.as_slice(), scan)
        },
        _ => Ok(fingerprint::dir_key(files)),
    }
}

/// Why a project cannot be linked into a parent, if it cannot: it is a binary, or
/// it is shared while the parent links statically.
pub open spec fn unlinkable(parent: ProjectV, child: ProjectV, name: Seq<char>) -> Option<FaultV> {
    if child.ty != ProjectType::Library {
        Some(
            diag::hinted(
                "dependency `"@ + name + "` is a binary conjure project, which can't be linked"@,
                "Conjure dependencies must be libraries (`type library`)"@,
            ),
        )
    } else if parent.link == Linkage::Static && child.link != Linkage::Static {
        Some(
            diag::hinted(
                "dependency `"@ + name + "` is shared but this project links statically"@,
                "Set the dependency to `link static`, or make this project dynamic"@,
            ),
        )
    } else {
        None
    }
}

/// Parent context that a `build conjure` dependency inherits and scopes against.
pub struct ConjureCtx<'a> {
    pub parent: &'a Project,
    /// The parent project's directory.
    pub dir: &'a str,
    /// The invocation root.
    pub root: &'a str,
    pub profile: Option<&'a str>,
    pub threads: usize,
}

/// How a dependency is built with conjure itself.
#[derive(Debug)]
pub struct ConjureBuild {
    /// Shown when the build starts.
    pub header: String,
    /// Where the dependency lies.
    pub dir: String,
    /// The profile that is built.
    pub profile: String,
    /// The threads it is built with.
    pub threads: usize,
    /// What the parent links against.
    pub lib: String,
}

/// Decide how to build a dependency with conjure itself. `child` is the project of
/// its own manifest, or the synthesized [`manifestless_project`].
///
/// The dependency's own profile matching the active name is applied when it has
/// one, otherwise it builds with no profile.
pub fn build_conjure_dep(
    ctx: &ConjureCtx,
    child: &Project,
    name: &str,
    dep: &Dependency,
    host: &Host,
) -> (out: Result<ConjureBuild, Fault>)
    ensures
        match out {
            Ok(b) => {
                let eff = effective_under(child@, text::opt(ctx.profile));
                let built = profile_built(child@, text::opt(ctx.profile));
                let at = source_dir(
                    name@,
                    dep@,
                    ctx.dir@,
                    ctx.root@,
                    scope_from(paths::stripped(ctx.dir@, ctx.root@)),
                );
                &&& unlinkable(ctx.parent@, eff, name@) is None
                &&& b.header@ == "Building "@ + name@ + " with conjure"@
                &&& b.dir@ == at
                &&& b.profile@ == built
                &&& b.threads == ctx.threads
                &&& b.lib@ == link::link_library_at(
                    eff,
                    ctx.root@,
                    built,
                    link::is_scoped(eff, at, ctx.root@),
                    *host,
                )
            },
            Err(e) => unlinkable(
                ctx.parent@,
                effective_under(child@, text::opt(ctx.profile)),
                name@,
            ) == Some(e@),
        },
{
    let eff = under_profile(child, ctx.profile);
    if !eff.is_library() {
        return Err(
            Fault::hinted(
                text::cat3(
                    "dependency `",
                    name,
                    "` is a binary conjure project, which can't be linked",
                ),
                "Conjure dependencies must be libraries (`type library`)",
            ),
        );
    }
    if ctx.parent.want_static() && !eff.want_static() {
        return Err(
            Fault::hinted(
                text::cat3("dependency `", name, "` is shared but this project links statically"),
                "Set the dependency to `link static`, or make this project dynamic",
            ),
        );
    }
    let scope = scope_of(ctx.root, ctx.dir);
    let dir = dep_dir(name, dep, ctx.dir, ctx.root, scope.as_str());
    let built = built_profile(child, ctx.profile);
    let own = link::output_scoped(&eff, dir.as_str(), ctx.root);
    let lib = link::link_library_path(&eff, ctx.root, built.as_str(), own, host);
    Ok(
        ConjureBuild {
            header: text::cat3("Building ", name, " with conjure"),
            dir,
            profile: built,
            threads: ctx.threads,
            lib,
        },
    )
}

// ---------------------------------------------------------------------------
// Include directories
// ---------------------------------------------------------------------------

/// The include directories of one dependency: those it lists, or the conventional
/// ones.
pub open spec fn include_dirs_of(d: DependencyV, base: Seq<char>) -> Seq<Seq<char>> {
    match d.includes {
        Some(v) => joined_all(base, v),
        None => seq![base, paths::joined(base, "include"@), paths::joined(base, "build"@)],
    }
}

/// The include directories of the dependencies called `order`, one after the
/// other.
pub open spec fn include_dirs_in(
    deps: Seq<(Seq<char>, DependencyV)>,
    order: Seq<Seq<char>>,
    dir: Seq<char>,
    root: Seq<char>,
    scope: Seq<char>,
) -> Seq<Seq<char>>
    decreases order.len(),
{
    if order.len() == 0 {
        Seq::empty()
    } else {
        let d = names::lookup(deps, order.last())->0;
        include_dirs_in(deps, order.drop_last(), dir, root, scope) + include_dirs_of(
            d,
            source_dir(order.last(), d, dir, root, scope),
        )
    }
}

/// The include directories of a project's dependencies, sorted by name.
pub open spec fn include_dirs(p: ProjectV, dir: Seq<char>, root: Seq<char>) -> Seq<Seq<char>> {
    match p.dependencies {
        Some(d) => include_dirs_in(
            d,
            order::sorted(names::keys(d)),
            dir,
            root,
            scope_from(paths::stripped(dir, root)),
        ),
        None => Seq::empty(),
    }
}

/// Include dirs conjure hands the compiler for a project's deps: the dep's listed
/// includes, or the conventional root/include/build dirs when unspecified.
pub fn dep_include_dirs(project: &Project, dir: &str, root: &str) -> (out: Vec<String>)
    ensures
        text::texts(out@) == include_dirs(project@, dir@, root@),
{
    let scope = scope_of(root, dir);
    match &project.dependencies {
        None => text::none(),
        Some(deps) => {
            let sorted_names = deps.sorted_keys();
            let ghost want = order::sorted(names::keys(deps@));
            let mut out = text::none();
            let mut i: usize = 0;
            proof {
                assert(want.take(0) =~= Seq::empty());
            }
            while i < sorted_names.len()
                invariant
                    i <= sorted_names@.len(),
                    want == text::texts(sorted_names@),
                    want == order::sorted(names::keys(deps@)),
                    scope@ == scope_from(paths::stripped(dir@, root@)),
                    text::texts(out@) == include_dirs_in(
                        deps@,
                        want.take(i as int),
                        dir@,
                        root@,
                        scope@,
                    ),
                decreases sorted_names@.len() - i,
            {
                let name = sorted_names[i].as_str();
                proof {
                    assert(want[i as int] == name@);
                    assert(want.contains(name@));
                    order::law_sorted(names::keys(deps@));
                    names::lemma_holds(deps@, name@);
                    assert(want.take(i + 1).drop_last() =~= want.take(i as int));
                    assert(want.take(i + 1).last() == name@);
                }
                if let Some(dep) = deps.get(name) {
                    let base = dep_dir(name, dep, dir, root, scope.as_str());
                    let dirs = match &dep.includes {
                        Some(v) => join_all(base.as_str(), v.as_slice()),
                        None => {
                            let a = paths::join(base.as_str(), "include");
                            let b = paths::join(base.as_str(), "build");
                            let mut dirs = text::one(base.as_str());
                            text::push_text(&mut dirs, a.as_str());
                            text::push_text(&mut dirs, b.as_str());
                            dirs
                        },
                    };
                    text::extend_texts(&mut out, dirs.as_slice());
                }
                i += 1;
            }
            proof {
                assert(want.take(i as int) =~= want);
            }
            out
        },
    }
}

// ---------------------------------------------------------------------------
// Fetching
// ---------------------------------------------------------------------------

/// How a remote dep is pinned for this build.
#[derive(Debug)]
pub enum Pin {
    /// Already locked: check out this commit.
    Commit(String),
    /// Unlocked: resolve the manifest ref, then pin HEAD.
    Resolve,
}

/// The model of a [`Pin`].
pub enum PinV {
    Commit(Seq<char>),
    Resolve,
}

impl View for Pin {
    type V = PinV;

    open spec fn view(&self) -> PinV {
        match *self {
            Pin::Commit(c) => PinV::Commit(c@),
            Pin::Resolve => PinV::Resolve,
        }
    }
}

/// A remote dep scheduled for the fetch phase.
#[derive(Debug)]
pub struct RemoteFetch {
    pub name: String,
    pub dep_dir: String,
    pub url: String,
    pub pin: Pin,
    pub remote: Option<Remote>,
    pub transport: Option<Transport>,
    pub git_ref: Option<String>,
}

/// The model of a [`RemoteFetch`].
pub struct RemoteFetchV {
    pub name: Seq<char>,
    pub dep_dir: Seq<char>,
    pub url: Seq<char>,
    pub pin: PinV,
    pub remote: Option<RemoteV>,
    pub transport: Option<Transport>,
    pub git_ref: Option<Seq<char>>,
}

impl View for RemoteFetch {
    type V = RemoteFetchV;

    open spec fn view(&self) -> RemoteFetchV {
        RemoteFetchV {
            name: self.name@,
            dep_dir: self.dep_dir@,
            url: self.url@,
            pin: self.pin@,
            remote: text::opt(self.remote),
            transport: self.transport,
            git_ref: text::opt(self.git_ref),
        }
    }
}

/// The model of a list of [`RemoteFetch`]es.
pub open spec fn fetches_view(v: Seq<RemoteFetch>) -> Seq<RemoteFetchV> {
    v.map_values(|f: RemoteFetch| f@)
}

/// What a fetch produced for a previously-unlocked dep.
#[derive(Debug)]
pub struct Resolved {
    pub git_ref: Option<String>,
    pub commit: String,
}

/// The model of a [`Resolved`].
pub struct ResolvedV {
    pub git_ref: Option<Seq<char>>,
    pub commit: Seq<char>,
}

impl View for Resolved {
    type V = ResolvedV;

    open spec fn view(&self) -> ResolvedV {
        ResolvedV { git_ref: text::opt(self.git_ref), commit: self.commit@ }
    }
}

/// How far a clone has been brought to the commit it is pinned at.
#[derive(Debug)]
pub enum FetchStage {
    /// Nothing done yet.
    Start,
    /// The clone is there.
    Cloned,
    /// The manifest's ref is checked out.
    AtRef,
    /// The commit at HEAD is known.
    Known(String),
    /// The commit at HEAD and the branch that led there are known.
    Named(String, Option<String>),
    /// The commit is checked out.
    Pinned(String, Option<String>),
}

/// The model of a [`FetchStage`].
pub enum FetchStageV {
    Start,
    Cloned,
    AtRef,
    Known(Seq<char>),
    Named(Seq<char>, Option<Seq<char>>),
    Pinned(Seq<char>, Option<Seq<char>>),
}

impl View for FetchStage {
    type V = FetchStageV;

    open spec fn view(&self) -> FetchStageV {
        match *self {
            FetchStage::Start => FetchStageV::Start,
            FetchStage::Cloned => FetchStageV::Cloned,
            FetchStage::AtRef => FetchStageV::AtRef,
            FetchStage::Known(c) => FetchStageV::Known(c@),
            FetchStage::Named(c, r) => FetchStageV::Named(c@, text::opt(r)),
            FetchStage::Pinned(c, r) => FetchStageV::Pinned(c@, text::opt(r)),
        }
    }
}

/// What has to be done to a clone next.
#[derive(Debug)]
pub enum FetchAction {
    /// Clone the repository, or reuse the clone that is there.
    Clone,
    /// Reset the checkout to a revision.
    Checkout(String),
    /// Find out the commit at HEAD.
    AskCommit,
    /// Find out the branch at HEAD.
    AskBranch,
    /// Nothing: this is what was resolved, if anything had to be.
    Done(Option<Resolved>),
}

/// The model of a [`FetchAction`].
pub enum FetchActionV {
    Clone,
    Checkout(Seq<char>),
    AskCommit,
    AskBranch,
    Done(Option<ResolvedV>),
}

impl View for FetchAction {
    type V = FetchActionV;

    open spec fn view(&self) -> FetchActionV {
        match *self {
            FetchAction::Clone => FetchActionV::Clone,
            FetchAction::Checkout(r) => FetchActionV::Checkout(r@),
            FetchAction::AskCommit => FetchActionV::AskCommit,
            FetchAction::AskBranch => FetchActionV::AskBranch,
            FetchAction::Done(r) => FetchActionV::Done(text::opt(r)),
        }
    }
}

/// What comes next at a stage. A locked dependency is cloned and checked out at its
/// commit; an unlocked one is checked out at its ref, if it names one, and then
/// pinned at the commit it finds there.
pub open spec fn next_action(
    pin: PinV,
    git_ref: Option<Seq<char>>,
    stage: FetchStageV,
) -> FetchActionV {
    match (stage, pin) {
        (FetchStageV::Start, _) => FetchActionV::Clone,
        (FetchStageV::Cloned, PinV::Commit(c)) => FetchActionV::Checkout(c),
        (FetchStageV::Cloned, PinV::Resolve) => match git_ref {
            Some(r) => FetchActionV::Checkout(r),
            None => FetchActionV::AskCommit,
        },
        (FetchStageV::AtRef, PinV::Commit(_)) => FetchActionV::Done(None),
        (FetchStageV::AtRef, PinV::Resolve) => FetchActionV::AskCommit,
        (FetchStageV::Known(_), _) => FetchActionV::AskBranch,
        (FetchStageV::Named(c, _), _) => FetchActionV::Checkout(c),
        (FetchStageV::Pinned(c, r), _) => FetchActionV::Done(
            Some(ResolvedV { git_ref: r, commit: c }),
        ),
    }
}

/// The stage after the action of a stage was done, with what it found out.
pub open spec fn next_stage(
    stage: FetchStageV,
    asked: bool,
    commit: Seq<char>,
    branch: Option<Seq<char>>,
) -> FetchStageV {
    match stage {
        FetchStageV::Start => FetchStageV::Cloned,
        FetchStageV::Cloned => if asked {
            FetchStageV::Known(commit)
        } else {
            FetchStageV::AtRef
        },
        FetchStageV::AtRef => FetchStageV::Known(commit),
        FetchStageV::Known(c) => FetchStageV::Named(c, branch),
        FetchStageV::Named(c, r) => FetchStageV::Pinned(c, r),
        FetchStageV::Pinned(c, r) => FetchStageV::Pinned(c, r),
    }
}

/// What has to be done next to bring a clone to its commit.
pub fn resolve_remote(pin: &Pin, git_ref: &Option<String>, stage: &FetchStage) -> (out: FetchAction)
    ensures
        out@ == next_action(pin@, text::opt(*git_ref), stage@),
{
    match stage {
        FetchStage::Start => FetchAction::Clone,
        FetchStage::Cloned => match pin {
            Pin::Commit(c) => FetchAction::Checkout(c.clone()),
            Pin::Resolve => match git_ref {
                Some(r) => FetchAction::Checkout(r.clone()),
                None => FetchAction::AskCommit,
            },
        },
        FetchStage::AtRef => match pin {
            Pin::Commit(_) => FetchAction::Done(None),
            Pin::Resolve => FetchAction::AskCommit,
        },
        FetchStage::Known(_) => FetchAction::AskBranch,
        FetchStage::Named(c, _) => FetchAction::Checkout(c.clone()),
        FetchStage::Pinned(c, r) => FetchAction::Done(
            Some(Resolved { git_ref: text::copy_opt(r), commit: c.clone() }),
        ),
    }
}

/// The stage after an action was done. `commit` and `branch` are what it found
/// out, where it asked for them; `asked` says whether the commit was asked for.
pub fn advance(stage: FetchStage, asked: bool, commit: String, branch: Option<String>) -> (out:
    FetchStage)
    ensures
        out@ == next_stage(stage@, asked, commit@, text::opt(branch)),
{
    match stage {
        FetchStage::Start => FetchStage::Cloned,
        FetchStage::Cloned => if asked {
            FetchStage::Known(commit)
        } else {
            FetchStage::AtRef
        },
        FetchStage::AtRef => FetchStage::Known(commit),
        FetchStage::Known(c) => FetchStage::Named(c, branch),
        FetchStage::Named(c, r) => FetchStage::Pinned(c, r),
        FetchStage::Pinned(c, r) => FetchStage::Pinned(c, r),
    }
}

/// The stage a fetch is in after `n` actions, when every question is answered with
/// the same commit and branch.
pub open spec fn stage_after(
    pin: PinV,
    git_ref: Option<Seq<char>>,
    commit: Seq<char>,
    branch: Option<Seq<char>>,
    n: nat,
) -> FetchStageV
    decreases n,
{
    if n == 0 {
        FetchStageV::Start
    } else {
        let before = stage_after(pin, git_ref, commit, branch, (n - 1) as nat);
        next_stage(
            before,
            next_action(pin, git_ref, before) is AskCommit,
            commit,
            branch,
        )
    }
}

/// A locked dependency is cloned and checked out at its commit, and nothing is
/// resolved: the lockfile stays as it is.
pub proof fn law_locked_fetch(
    commit: Seq<char>,
    git_ref: Option<Seq<char>>,
    head: Seq<char>,
    branch: Option<Seq<char>>,
)
    ensures
        ({
            let pin = PinV::Commit(commit);
            &&& next_action(pin, git_ref, stage_after(pin, git_ref, head, branch, 0))
                == FetchActionV::Clone
            &&& next_action(pin, git_ref, stage_after(pin, git_ref, head, branch, 1))
                == FetchActionV::Checkout(commit)
            &&& next_action(pin, git_ref, stage_after(pin, git_ref, head, branch, 2))
                == FetchActionV::Done(None)
        }),
{
    reveal_with_fuel(stage_after, 4);
}

/// An unlocked dependency ends up checked out at the commit found at HEAD, which is
/// what it is pinned at, together with the branch that led there; its ref is
/// checked out first where it names one.
pub proof fn law_unlocked_fetch(
    git_ref: Option<Seq<char>>,
    head: Seq<char>,
    branch: Option<Seq<char>>,
)
    ensures
        ({
            let pin = PinV::Resolve;
            let skip: nat = if git_ref is Some {
                1
            } else {
                0
            };
            &&& next_action(pin, git_ref, stage_after(pin, git_ref, head, branch, 0))
                == FetchActionV::Clone
            &&& git_ref matches Some(r) ==> next_action(
                pin,
                git_ref,
                stage_after(pin, git_ref, head, branch, 1),
            ) == FetchActionV::Checkout(r)
            &&& next_action(pin, git_ref, stage_after(pin, git_ref, head, branch, 1 + skip))
                == FetchActionV::AskCommit
            &&& next_action(pin, git_ref, stage_after(pin, git_ref, head, branch, 2 + skip))
                == FetchActionV::AskBranch
            &&& next_action(pin, git_ref, stage_after(pin, git_ref, head, branch, 3 + skip))
                == FetchActionV::Checkout(head)
            &&& next_action(pin, git_ref, stage_after(pin, git_ref, head, branch, 4 + skip))
                == FetchActionV::Done(Some(ResolvedV { git_ref: branch, commit: head }))
        }),
{
    reveal_with_fuel(stage_after, 7);
}

// ---------------------------------------------------------------------------
// Building all dependencies
// ---------------------------------------------------------------------------

/// Whether a project links the libraries of its dependencies. A static library
/// archives objects and never links.
pub open spec fn links_deps(p: ProjectV) -> bool {
    !(p.ty == ProjectType::Library && p.link == Linkage::Static)
}

/// Whether a project links the libraries of its dependencies.
pub fn link_deps(project: &Project) -> (res: bool)
    ensures
        res == links_deps(project@),
{
    !(project.is_library() && project.want_static())
}

/// The tag of a cache key: static and dynamic builds do not share entries.
pub open spec fn key_tag(p: ProjectV) -> Seq<char> {
    if p.link == Linkage::Static {
        ":s"@
    } else {
        ":d"@
    }
}

fn tag_of(project: &Project) -> (out: &'static str)
    ensures
        out@ == key_tag(project@),
{
    if project.want_static() {
        ":s"
    } else {
        ":d"
    }
}

/// A build with another linkage never finds a library that was cached for this
/// one.
pub proof fn law_flipping_linkage_changes_the_key(p: ProjectV, q: ProjectV, a: Seq<char>, b: Seq<char>)
    requires
        (p.link == Linkage::Static) != (q.link == Linkage::Static),
    ensures
        a + key_tag(p) != b + key_tag(q),
{
    reveal_strlit(":s");
    reveal_strlit(":d");
    let x = a + key_tag(p);
    let y = b + key_tag(q);
    assert(x.last() == key_tag(p)[1]);
    assert(y.last() == key_tag(q)[1]);
}

/// The library cached for a dependency under a key, if it is among those still
/// present.
pub open spec fn cached_lib(
    cache: Seq<(Seq<char>, Seq<(Seq<char>, CachedDepV)>)>,
    present: Seq<Seq<char>>,
    scope: Seq<char>,
    name: Seq<char>,
    key: Seq<char>,
) -> Option<Seq<char>> {
    match dep_cache::library_for(cache, scope, name, key) {
        Some(lib) => if present.contains(lib) {
            Some(lib)
        } else {
            None
        },
        None => None,
    }
}

fn find_cached(cache: &DepCache, present: &[String], scope: &str, name: &str, key: &str) -> (out:
    Option<String>)
    ensures
        text::opt(out) == cached_lib(cache@, text::texts(present@), scope@, name@, key@),
{
    match cache.recorded(scope, name, key) {
        Some(lib) => if text::has_text(present, lib.as_str()) {
            Some(lib)
        } else {
            None
        },
        None => None,
    }
}

/// What surrounds the dependencies of a project in a build.
pub struct DepsCtx<'a> {
    pub project: &'a Project,
    pub dir: &'a str,
    pub root: &'a str,
    pub lock: &'a LockFile,
    pub cache: &'a DepCache,
    /// The cached libraries that are still there.
    pub present: &'a [String],
}

/// The model of a [`DepsCtx`].
pub struct DepsCtxV {
    pub project: ProjectV,
    pub dir: Seq<char>,
    pub root: Seq<char>,
    pub lock: Seq<(Seq<char>, LockedDepV)>,
    pub cache: Seq<(Seq<char>, Seq<(Seq<char>, CachedDepV)>)>,
    pub present: Seq<Seq<char>>,
}

impl<'a> View for DepsCtx<'a> {
    type V = DepsCtxV;

    open spec fn view(&self) -> DepsCtxV {
        DepsCtxV {
            project: self.project@,
            dir: self.dir@,
            root: self.root@,
            lock: self.lock@,
            cache: self.cache@,
            present: text::texts(self.present@),
        }
    }
}

/// The cache scope of a build.
pub open spec fn ctx_scope(c: DepsCtxV) -> Seq<char> {
    scope_from(paths::stripped(c.dir, c.root))
}

/// The fetch a dependency needs, if any: a local one needs none, nor does one
/// whose library is cached for its commit.
pub open spec fn fetch_for(c: DepsCtxV, name: Seq<char>, d: DependencyV) -> Result<
    Option<RemoteFetchV>,
    Seq<char>,
> {
    if d.local is Some {
        Ok(None)
    } else {
        match clone_url(name, d) {
            Err(e) => Err(e),
            Ok(url) => {
                let at = RemoteFetchV {
                    name,
                    dep_dir: paths::joined(scoped(home(c.root), ctx_scope(c)), name),
                    url,
                    pin: PinV::Resolve,
                    remote: d.remote,
                    transport: d.transport,
                    git_ref: d.git_ref,
                };
                match lock::pinned(c.lock, name) {
                    Some(commit) => if cached_lib(
                        c.cache,
                        c.present,
                        ctx_scope(c),
                        name,
                        commit + key_tag(c.project),
                    ) is Some {
                        Ok(None)
                    } else {
                        Ok(Some(RemoteFetchV { pin: PinV::Commit(commit), ..at }))
                    },
                    None => Ok(Some(at)),
                }
            },
        }
    }
}

/// The fetches that some dependencies need, in order.
pub open spec fn fetches_for(c: DepsCtxV, deps: Seq<(Seq<char>, DependencyV)>) -> Result<
    Seq<RemoteFetchV>,
    Seq<char>,
>
    decreases deps.len(),
{
    if deps.len() == 0 {
        Ok(Seq::empty())
    } else {
        match fetches_for(c, deps.drop_last()) {
            Err(e) => Err(e),
            Ok(v) => match fetch_for(c, deps.last().0, deps.last().1) {
                Err(e) => Err(e),
                Ok(None) => Ok(v),
                Ok(Some(f)) => Ok(v.push(f)),
            },
        }
    }
}

proof fn lemma_fetches_stop(c: DepsCtxV, deps: Seq<(Seq<char>, DependencyV)>, n: int)
    requires
        0 <= n <= deps.len(),
        fetches_for(c, deps.take(n)) is Err,
    ensures
        fetches_for(c, deps) == fetches_for(c, deps.take(n)),
    decreases deps.len() - n,
{
    if n < deps.len() {
        assert(deps.take(n + 1).drop_last() =~= deps.take(n));
        lemma_fetches_stop(c, deps, n + 1);
    } else {
        assert(deps.take(n) =~= deps);
    }
}

fn one_fetch(ctx: &DepsCtx, scope: &str, name: &str, dep: &Dependency) -> (out: Result<
    Option<RemoteFetch>,
    String,
>)
    requires
        scope@ == ctx_scope(ctx@),
    ensures
        match out {
            Ok(None) => fetch_for(ctx@, name@, dep@) == Ok::<Option<RemoteFetchV>, Seq<char>>(None),
            Ok(Some(f)) => fetch_for(ctx@, name@, dep@) == Ok::<Option<RemoteFetchV>, Seq<char>>(
                Some(f@),
            ),
            Err(e) => fetch_for(ctx@, name@, dep@) == Err::<Option<RemoteFetchV>, Seq<char>>(e@),
        },
{
    if dep.local.is_some() {
        return Ok(None);
    }
    let url = match dep_url(dep, name) {
        Ok(url) => url,
        Err(e) => return Err(e),
    };
    let base = cache_home(ctx.root);
    let own = scope_dir(base.as_str(), scope);
    let dep_dir = paths::join(own.as_str(), name);
    let pin = match ctx.lock.entries().get(name) {
        Some(locked) => {
            let key = text::cat(locked.commit.as_str(), tag_of(ctx.project));
            if find_cached(ctx.cache, ctx.present, scope, name, key.as_str()).is_some() {
                return Ok(None);
            }
            Pin::Commit(locked.commit.clone())
        },
        None => Pin::Resolve,
    };
    Ok(
        Some(
            RemoteFetch {
                name: name.to_owned(),
                dep_dir,
                url,
                pin,
                remote: proj_parse::copy_remote(&dep.remote),
                transport: dep.transport,
                git_ref: text::copy_opt(&dep.git_ref),
            },
        ),
    )
}

/// Schedule fetches for the remote deps that are neither cached nor local.
pub fn plan_fetches(ctx: &DepsCtx, deps: &NameMap<Dependency>) -> (out: Result<
    Vec<RemoteFetch>,
    String,
>)
    ensures
        match out {
            Ok(v) => fetches_for(ctx@, deps@) == Ok::<Seq<RemoteFetchV>, Seq<char>>(
                fetches_view(v@),
            ),
            Err(e) => fetches_for(ctx@, deps@) == Err::<Seq<RemoteFetchV>, Seq<char>>(e@),
        },
{
    let scope = scope_of(ctx.root, ctx.dir);
    let mut out: Vec<RemoteFetch> = Vec::new();
    let mut i: usize = 0;
    proof {
        assert(deps@.take(0) =~= Seq::empty());
        assert(fetches_view(out@) =~= Seq::empty());
    }
    while i < deps.len()
        invariant
            i <= deps@.len(),
            scope@ == ctx_scope(ctx@),
            fetches_for(ctx@, deps@.take(i as int)) == Ok::<Seq<RemoteFetchV>, Seq<char>>(
                fetches_view(out@),
            ),
        decreases deps@.len() - i,
    {
        proof {
            assert(deps@.take(i + 1).drop_last() =~= deps@.take(i as int));
            assert(deps@.take(i + 1).last() == deps@[i as int]);
        }
        match one_fetch(ctx, scope.as_str(), deps.name_at(i), deps.value_at(i)) {
            Ok(None) => {},
            Ok(Some(f)) => {
                let ghost before = out@;
                let ghost fv = f@;
                out.push(f);
                proof {
                    assert(fetches_view(out@) =~= fetches_view(before).push(fv));
                }
            },
            Err(e) => {
                proof {
                    lemma_fetches_stop(ctx@, deps@, i + 1);
                }
                return Err(e);
            },
        }
        i += 1;
    }
    proof {
        assert(deps@.take(i as int) =~= deps@);
    }
    Ok(out)
}

/// The model of a list of optional resolutions.
pub open spec fn resolved_view(v: Seq<Option<Resolved>>) -> Seq<Option<ResolvedV>> {
    v.map_values(|r: Option<Resolved>| text::opt(r))
}

/// The lockfile entry of a fetch that was resolved.
pub open spec fn lock_entry(f: RemoteFetchV, r: ResolvedV) -> LockedDepV {
    LockedDepV {
        remote: f.remote,
        transport: f.transport,
        git_ref: r.git_ref,
        commit: r.commit,
    }
}

/// The lockfile after the first `n` fetches were recorded.
pub open spec fn relocked(
    lock: Seq<(Seq<char>, LockedDepV)>,
    fetches: Seq<RemoteFetchV>,
    resolved: Seq<Option<ResolvedV>>,
    n: int,
) -> Seq<(Seq<char>, LockedDepV)>
    decreases n,
{
    if n <= 0 {
        lock
    } else {
        let before = relocked(lock, fetches, resolved, n - 1);
        match resolved[n - 1] {
            Some(r) => names::put(before, fetches[n - 1].name, lock_entry(fetches[n - 1], r)),
            None => before,
        }
    }
}

/// The names that the first `n` fetches locked.
pub open spec fn newly_locked(
    fetches: Seq<RemoteFetchV>,
    resolved: Seq<Option<ResolvedV>>,
    n: int,
) -> Seq<Seq<char>>
    decreases n,
{
    if n <= 0 {
        Seq::empty()
    } else {
        let before = newly_locked(fetches, resolved, n - 1);
        if resolved[n - 1] is Some {
            before.push(fetches[n - 1].name)
        } else {
            before
        }
    }
}

/// Pin what the fetches resolved. Returns the names that were pinned; where there
/// are none, the lockfile did not change.
pub fn record_locks(
    lock: &mut LockFile,
    fetches: &Vec<RemoteFetch>,
    resolved: &Vec<Option<Resolved>>,
) -> (out: Vec<String>)
    requires
        fetches@.len() == resolved@.len(),
    ensures
        final(lock)@ == relocked(
            old(lock)@,
            fetches_view(fetches@),
            resolved_view(resolved@),
            fetches@.len() as int,
        ),
        text::texts(out@) == newly_locked(
            fetches_view(fetches@),
            resolved_view(resolved@),
            fetches@.len() as int,
        ),
{
    let ghost before = lock@;
    let ghost fv = fetches_view(fetches@);
    let ghost rv = resolved_view(resolved@);
    let mut out = text::none();
    let mut i: usize = 0;
    while i < fetches.len()
        invariant
            i <= fetches@.len(),
            fetches@.len() == resolved@.len(),
            fv == fetches_view(fetches@),
            rv == resolved_view(resolved@),
            lock@ == relocked(before, fv, rv, i as int),
            text::texts(out@) == newly_locked(fv, rv, i as int),
        decreases fetches@.len() - i,
    {
        proof {
            assert(fv[i as int] == fetches@[i as int]@);
            assert(rv[i as int] == text::opt(resolved@[i as int]));
        }
        if let Some(r) = &resolved[i] {
            let f = &fetches[i];
            lock.lock(
                f.name.as_str(),
                proj_parse::copy_remote(&f.remote),
                f.transport,
                text::copy_opt(&r.git_ref),
                r.commit.clone(),
            );
            text::push_text(&mut out, f.name.as_str());
        }
        i += 1;
    }
    out
}

/// Whether none of some fetches, from `from` on, resolved a dependency.
pub open spec fn leaves_alone(
    fetches: Seq<RemoteFetchV>,
    resolved: Seq<Option<ResolvedV>>,
    from: int,
    to: int,
    name: Seq<char>,
) -> bool {
    forall|i: int| from <= i < to && (#[trigger] fetches[i]).name == name ==> resolved[i] is None
}

proof fn lemma_relocked(
    lock: Seq<(Seq<char>, LockedDepV)>,
    fetches: Seq<RemoteFetchV>,
    resolved: Seq<Option<ResolvedV>>,
    n: int,
    name: Seq<char>,
)
    requires
        0 <= n,
        fetches.len() == resolved.len(),
        n <= fetches.len(),
    ensures
        leaves_alone(fetches, resolved, 0, n, name) ==> names::lookup(
            relocked(lock, fetches, resolved, n),
            name,
        ) == names::lookup(lock, name),
        forall|i: int|
            0 <= i < n && resolved[i] is Some && (#[trigger] fetches[i]).name == name
                && leaves_alone(fetches, resolved, i + 1, n, name) ==> names::lookup(
                relocked(lock, fetches, resolved, n),
                name,
            ) == Some(lock_entry(fetches[i], resolved[i]->0)),
        (forall|i: int| 0 <= i < n ==> (#[trigger] resolved[i]) is None) ==> relocked(
            lock,
            fetches,
            resolved,
            n,
        ) == lock,
    decreases n,
{
    if n > 0 {
        lemma_relocked(lock, fetches, resolved, n - 1, name);
        let before = relocked(lock, fetches, resolved, n - 1);
        if let Some(r) = resolved[n - 1] {
            names::law_put(before, fetches[n - 1].name, lock_entry(fetches[n - 1], r), name);
        }
        assert forall|i: int|
            0 <= i < n && resolved[i] is Some && (#[trigger] fetches[i]).name == name
                && leaves_alone(fetches, resolved, i + 1, n, name) implies names::lookup(
            relocked(lock, fetches, resolved, n),
            name,
        ) == Some(lock_entry(fetches[i], resolved[i]->0)) by {
            if i < n - 1 {
                assert(leaves_alone(fetches, resolved, i + 1, n - 1, name));
                assert(fetches[n - 1].name == name ==> resolved[n - 1] is None);
            }
        }
        if leaves_alone(fetches, resolved, 0, n, name) {
            assert(leaves_alone(fetches, resolved, 0, n - 1, name));
            assert(fetches[n - 1].name == name ==> resolved[n - 1] is None);
        }
    }
}

/// Recording leaves the entry of a dependency that was not resolved as it was,
/// records what was resolved for any other - the last of it, should one be fetched
/// twice - and changes nothing at all where nothing was resolved.
pub proof fn law_record_locks(
    lock: Seq<(Seq<char>, LockedDepV)>,
    fetches: Seq<RemoteFetchV>,
    resolved: Seq<Option<ResolvedV>>,
    name: Seq<char>,
)
    requires
        fetches.len() == resolved.len(),
    ensures
        ({
            let n = fetches.len() as int;
            let after = relocked(lock, fetches, resolved, n);
            &&& leaves_alone(fetches, resolved, 0, n, name) ==> names::lookup(after, name)
                == names::lookup(lock, name)
            &&& forall|i: int|
                0 <= i < n && resolved[i] is Some && (#[trigger] fetches[i]).name == name
                    && leaves_alone(fetches, resolved, i + 1, n, name) ==> names::lookup(
                    after,
                    name,
                ) == Some(lock_entry(fetches[i], resolved[i]->0))
            &&& (forall|i: int| 0 <= i < n ==> (#[trigger] resolved[i]) is None) ==> after == lock
        }),
{
    lemma_relocked(lock, fetches, resolved, fetches.len() as int, name);
}

/// A pin is never lost by recording, and whatever was resolved is pinned.
proof fn lemma_stays_pinned(
    lock: Seq<(Seq<char>, LockedDepV)>,
    fetches: Seq<RemoteFetchV>,
    resolved: Seq<Option<ResolvedV>>,
    n: int,
    name: Seq<char>,
)
    requires
        0 <= n <= fetches.len(),
        fetches.len() == resolved.len(),
    ensures
        lock::pinned(lock, name) is Some ==> lock::pinned(
            relocked(lock, fetches, resolved, n),
            name,
        ) is Some,
        forall|i: int|
            0 <= i < n && resolved[i] is Some && (#[trigger] fetches[i]).name == name
                ==> lock::pinned(relocked(lock, fetches, resolved, n), name) is Some,
    decreases n,
{
    if n > 0 {
        lemma_stays_pinned(lock, fetches, resolved, n - 1, name);
        let before = relocked(lock, fetches, resolved, n - 1);
        if let Some(r) = resolved[n - 1] {
            lock::law_lock_pins(
                before,
                fetches[n - 1].name,
                lock_entry(fetches[n - 1], r),
                name,
            );
        }
    }
}

/// A build checks out what is on record: every fetch is of a remote dependency, at
/// the commit that the lockfile pins it to, and only one without a pin is resolved
/// anew.
pub proof fn law_fetches_follow_the_lockfile(
    c: DepsCtxV,
    deps: Seq<(Seq<char>, DependencyV)>,
    k: int,
)
    requires
        fetches_for(c, deps) is Ok,
        0 <= k < fetches_for(c, deps)->Ok_0.len(),
    ensures
        ({
            let f = fetches_for(c, deps)->Ok_0[k];
            &&& exists|i: int|
                0 <= i < deps.len() && (#[trigger] deps[i]).0 == f.name && deps[i].1.local is None
            &&& f.pin == (match lock::pinned(c.lock, f.name) {
                Some(commit) => PinV::Commit(commit),
                None => PinV::Resolve,
            })
        }),
    decreases deps.len(),
{
    let front = deps.drop_last();
    let fv = fetches_for(c, front)->Ok_0;
    let v = fetches_for(c, deps)->Ok_0;
    if k < fv.len() {
        law_fetches_follow_the_lockfile(c, front, k);
        assert(v[k] == fv[k]);
        let i = choose|i: int|
            0 <= i < front.len() && (#[trigger] front[i]).0 == fv[k].name && front[i].1.local is None;
        assert(deps[i] == front[i]);
    } else {
        assert(deps[deps.len() - 1].0 == v[k].name);
    }
}

/// A build whose remote dependencies are all pinned, and cached for their pins,
/// fetches nothing.
pub proof fn law_cached_builds_fetch_nothing(c: DepsCtxV, deps: Seq<(Seq<char>, DependencyV)>)
    requires
        forall|i: int|
            0 <= i < deps.len() && (#[trigger] deps[i]).1.local is None ==> deps[i].1.remote is Some
                && (lock::pinned(c.lock, deps[i].0) matches Some(commit) && cached_lib(
                c.cache,
                c.present,
                ctx_scope(c),
                deps[i].0,
                commit + key_tag(c.project),
            ) is Some),
    ensures
        fetches_for(c, deps) == Ok::<Seq<RemoteFetchV>, Seq<char>>(Seq::empty()),
    decreases deps.len(),
{
    if deps.len() > 0 {
        let front = deps.drop_last();
        assert forall|i: int| 0 <= i < front.len() implies #[trigger] front[i] == deps[i] by {}
        law_cached_builds_fetch_nothing(c, front);
        assert(deps[deps.len() - 1] == deps.last());
    }
}

/// What is left to do for one dependency.
#[derive(Debug)]
pub enum DepWork {
    /// Already built and cached: reuse the artifact.
    Cached(String),
    /// Source present locally; still needs building.
    Local { dep_dir: String, key: String },
    /// Remote, already fetched; still needs building.
    Remote { dep_dir: String, key: String },
}

/// The model of a [`DepWork`].
pub enum DepWorkV {
    Cached(Seq<char>),
    Local { dep_dir: Seq<char>, key: Seq<char> },
    Remote { dep_dir: Seq<char>, key: Seq<char> },
}

impl View for DepWork {
    type V = DepWorkV;

    open spec fn view(&self) -> DepWorkV {
        match *self {
            DepWork::Cached(l) => DepWorkV::Cached(l@),
            DepWork::Local { dep_dir, key } => DepWorkV::Local { dep_dir: dep_dir@, key: key@ },
            DepWork::Remote { dep_dir, key } => DepWorkV::Remote { dep_dir: dep_dir@, key: key@ },
        }
    }
}

/// One dependency's resolved work item for a build.
#[derive(Debug)]
pub struct DepJob {
    pub name: String,
    pub work: DepWork,
}

/// The model of a list of [`DepJob`]s.
pub open spec fn jobs_view(v: Seq<DepJob>) -> Seq<(Seq<char>, DepWorkV)> {
    v.map_values(|j: DepJob| (j.name@, j.work@))
}

/// The work left for a dependency, from the fingerprints of the local ones: a
/// cached library is reused, anything else is built. A remote one has to be
/// locked.
pub open spec fn work_for(
    c: DepsCtxV,
    prints: Seq<(Seq<char>, Seq<char>)>,
    name: Seq<char>,
    d: DependencyV,
) -> Result<DepWorkV, Seq<char>> {
    match d.local {
        Some(p) => {
            let key = names::lookup(prints, name)->0 + key_tag(c.project);
            match cached_lib(c.cache, c.present, ctx_scope(c), name, key) {
                Some(lib) => Ok(DepWorkV::Cached(lib)),
                None => Ok(DepWorkV::Local { dep_dir: paths::joined(c.dir, p), key }),
            }
        },
        None => match lock::pinned(c.lock, name) {
            None => Err("Dependency `"@ + name + "` is not locked; run `conjure lock`"@),
            Some(commit) => {
                let key = commit + key_tag(c.project);
                match cached_lib(c.cache, c.present, ctx_scope(c), name, key) {
                    Some(lib) => Ok(DepWorkV::Cached(lib)),
                    None => Ok(
                        DepWorkV::Remote {
                            dep_dir: paths::joined(scoped(home(c.root), ctx_scope(c)), name),
                            key,
                        },
                    ),
                }
            },
        },
    }
}

/// The work left for some dependencies, in order.
pub open spec fn jobs_for(
    c: DepsCtxV,
    prints: Seq<(Seq<char>, Seq<char>)>,
    deps: Seq<(Seq<char>, DependencyV)>,
) -> Result<Seq<(Seq<char>, DepWorkV)>, Seq<char>>
    decreases deps.len(),
{
    if deps.len() == 0 {
        Ok(Seq::empty())
    } else {
        match jobs_for(c, prints, deps.drop_last()) {
            Err(e) => Err(e),
            Ok(v) => match work_for(c, prints, deps.last().0, deps.last().1) {
                Err(e) => Err(e),
                Ok(w) => Ok(v.push((deps.last().0, w))),
            },
        }
    }
}

/// Whether every local dependency has a fingerprint.
pub open spec fn all_printed(
    deps: Seq<(Seq<char>, DependencyV)>,
    prints: Seq<(Seq<char>, Seq<char>)>,
) -> bool {
    forall|i: int|
        0 <= i < deps.len() && (#[trigger] deps[i]).1.local is Some ==> names::holds(
            prints,
            deps[i].0,
        )
}

proof fn lemma_jobs_stop(
    c: DepsCtxV,
    prints: Seq<(Seq<char>, Seq<char>)>,
    deps: Seq<(Seq<char>, DependencyV)>,
    n: int,
)
    requires
        0 <= n <= deps.len(),
        jobs_for(c, prints, deps.take(n)) is Err,
    ensures
        jobs_for(c, prints, deps) == jobs_for(c, prints, deps.take(n)),
    decreases deps.len() - n,
{
    if n < deps.len() {
        assert(deps.take(n + 1).drop_last() =~= deps.take(n));
        lemma_jobs_stop(c, prints, deps, n + 1);
    } else {
        assert(deps.take(n) =~= deps);
    }
}

fn one_job(
    ctx: &DepsCtx,
    scope: &str,
    prints: &NameMap<String>,
    name: &str,
    dep: &Dependency,
) -> (out: Result<DepWork, String>)
    requires
        scope@ == ctx_scope(ctx@),
        dep@.local is Some ==> names::holds(prints@, name@),
    ensures
        match out {
            Ok(w) => work_for(ctx@, prints@, name@, dep@) == Ok::<DepWorkV, Seq<char>>(w@),
            Err(e) => work_for(ctx@, prints@, name@, dep@) == Err::<DepWorkV, Seq<char>>(e@),
        },
{
    match &dep.local {
        Some(p) => {
            let print = match prints.get(name) {
                Some(s) => s.as_str(),
                None => "",
            };
            let key = text::cat(print, tag_of(ctx.project));
            match find_cached(ctx.cache, ctx.present, scope, name, key.as_str()) {
                Some(lib) => Ok(DepWork::Cached(lib)),
                None => Ok(DepWork::Local { dep_dir: paths::join(ctx.dir, p.as_str()), key }),
            }
        },
        None => match ctx.lock.entries().get(name) {
            None => Err(
                text::cat3("Dependency `", name, "` is not locked; run `conjure lock`"),
            ),
            Some(locked) => {
                let key = text::cat(locked.commit.as_str(), tag_of(ctx.project));
                match find_cached(ctx.cache, ctx.present, scope, name, key.as_str()) {
                    Some(lib) => Ok(DepWork::Cached(lib)),
                    None => {
                        let base = cache_home(ctx.root);
                        let own = scope_dir(base.as_str(), scope);
                        let dep_dir = paths::join(own.as_str(), name);
                        Ok(DepWork::Remote { dep_dir, key })
                    },
                }
            },
        },
    }
}

/// Resolve each dep to a cache hit or a build job, in manifest order. `prints`
/// holds the fingerprint of every local one.
pub fn plan_jobs(ctx: &DepsCtx, prints: &NameMap<String>, deps: &NameMap<Dependency>) -> (out:
    Result<Vec<DepJob>, String>)
    requires
        all_printed(deps@, prints@),
    ensures
        match out {
            Ok(v) => jobs_for(ctx@, prints@, deps@) == Ok::<
                Seq<(Seq<char>, DepWorkV)>,
                Seq<char>,
            >(jobs_view(v@)),
            Err(e) => jobs_for(ctx@, prints@, deps@) == Err::<
                Seq<(Seq<char>, DepWorkV)>,
                Seq<char>,
            >(e@),
        },
{
    let scope = scope_of(ctx.root, ctx.dir);
    let mut out: Vec<DepJob> = Vec::new();
    let mut i: usize = 0;
    proof {
        assert(deps@.take(0) =~= Seq::empty());
        assert(jobs_view(out@) =~= Seq::empty());
    }
    while i < deps.len()
        invariant
            i <= deps@.len(),
            scope@ == ctx_scope(ctx@),
            all_printed(deps@, prints@),
            jobs_for(ctx@, prints@, deps@.take(i as int)) == Ok::<
                Seq<(Seq<char>, DepWorkV)>,
                Seq<char>,
            >(jobs_view(out@)),
        decreases deps@.len() - i,
    {
        proof {
            assert(deps@.take(i + 1).drop_last() =~= deps@.take(i as int));
            assert(deps@.take(i + 1).last() == deps@[i as int]);
        }
        match one_job(ctx, scope.as_str(), prints, deps.name_at(i), deps.value_at(i)) {
            Ok(work) => {
                let ghost before = out@;
                let ghost pair = (deps@[i as int].0, work@);
                out.push(DepJob { name: deps.name_at(i).to_owned(), work });
                proof {
                    assert(jobs_view(out@) =~= jobs_view(before).push(pair));
                }
            },
            Err(e) => {
                proof {
                    lemma_jobs_stop(ctx@, prints@, deps@, i + 1);
                }
                return Err(e);
            },
        }
        i += 1;
    }
    proof {
        assert(deps@.take(i as int) =~= deps@);
    }
    Ok(out)
}

/// The cache after a job was done: what was built is recorded under its key, what
/// was reused is there already.
pub open spec fn cache_after(
    cache: Seq<(Seq<char>, Seq<(Seq<char>, CachedDepV)>)>,
    scope: Seq<char>,
    job: (Seq<char>, DepWorkV),
    lib: Seq<char>,
) -> Seq<(Seq<char>, Seq<(Seq<char>, CachedDepV)>)> {
    match job.1 {
        DepWorkV::Cached(_) => cache,
        DepWorkV::Local { dep_dir: _, key } => dep_cache::with_library(
            cache,
            scope,
            job.0,
            key,
            lib,
        ),
        DepWorkV::Remote { dep_dir: _, key } => dep_cache::with_library(
            cache,
            scope,
            job.0,
            key,
            lib,
        ),
    }
}

/// The library a job comes to: the cached one, or the one that was built.
pub open spec fn lib_of(job: (Seq<char>, DepWorkV), built: Seq<char>) -> Seq<char> {
    match job.1 {
        DepWorkV::Cached(lib) => lib,
        _ => built,
    }
}

/// The libraries that jobs come to, in order.
pub open spec fn libs_of(jobs: Seq<(Seq<char>, DepWorkV)>, built: Seq<Seq<char>>) -> Seq<Seq<char>> {
    Seq::new(jobs.len(), |i: int| lib_of(jobs[i], built[i]))
}

/// The cache after the first `n` jobs were done.
pub open spec fn cache_with(
    cache: Seq<(Seq<char>, Seq<(Seq<char>, CachedDepV)>)>,
    scope: Seq<char>,
    jobs: Seq<(Seq<char>, DepWorkV)>,
    built: Seq<Seq<char>>,
    n: int,
) -> Seq<(Seq<char>, Seq<(Seq<char>, CachedDepV)>)>
    decreases n,
{
    if n <= 0 {
        cache
    } else {
        cache_after(
            cache_with(cache, scope, jobs, built, n - 1),
            scope,
            jobs[n - 1],
            built[n - 1],
        )
    }
}

/// Record what the jobs came to, once all of them are done, and return the
/// libraries to link, in manifest order. `built` holds the library of each job that
/// had to be built; what it holds for the others is not looked at.
pub fn record_builds(cache: &mut DepCache, scope: &str, jobs: &Vec<DepJob>, built: &[String]) -> (out:
    Vec<String>)
    requires
        jobs@.len() == built@.len(),
    ensures
        text::texts(out@) == libs_of(jobs_view(jobs@), text::texts(built@)),
        final(cache)@ == cache_with(
            old(cache)@,
            scope@,
            jobs_view(jobs@),
            text::texts(built@),
            jobs@.len() as int,
        ),
{
    let ghost before = cache@;
    let ghost jv = jobs_view(jobs@);
    let ghost bv = text::texts(built@);
    let ghost want = libs_of(jv, bv);
    let mut out = text::none();
    let mut i: usize = 0;
    while i < jobs.len()
        invariant
            i <= jobs@.len() == built@.len(),
            jv == jobs_view(jobs@),
            bv == text::texts(built@),
            want == libs_of(jv, bv),
            cache@ == cache_with(before, scope@, jv, bv, i as int),
            text::texts(out@) == want.take(i as int),
        decreases jobs@.len() - i,
    {
        let name = jobs[i].name.as_str();
        let lib = built[i].as_str();
        proof {
            assert(jv[i as int] == (jobs@[i as int].name@, jobs@[i as int].work@));
            assert(bv[i as int] == built@[i as int]@);
            assert(want.take(i + 1) =~= want.take(i as int).push(want[i as int]));
        }
        match &jobs[i].work {
            DepWork::Cached(l) => {
                text::push_text(&mut out, l.as_str());
            },
            DepWork::Local { dep_dir: _, key } => {
                cache.insert(scope, name, key.clone(), lib.to_owned());
                text::push_text(&mut out, lib);
            },
            DepWork::Remote { dep_dir: _, key } => {
                cache.insert(scope, name, key.clone(), lib.to_owned());
                text::push_text(&mut out, lib);
            },
        }
        i += 1;
    }
    proof {
        assert(want.take(i as int) =~= want);
    }
    out
}

/// The jobs come in manifest order, one for every dependency.
pub proof fn law_jobs_follow_the_manifest(
    c: DepsCtxV,
    prints: Seq<(Seq<char>, Seq<char>)>,
    deps: Seq<(Seq<char>, DependencyV)>,
)
    ensures
        jobs_for(c, prints, deps) matches Ok(v) ==> names::keys(v) == names::keys(deps),
    decreases deps.len(),
{
    if deps.len() > 0 {
        let front = deps.drop_last();
        law_jobs_follow_the_manifest(c, prints, front);
        if let Ok(v) = jobs_for(c, prints, deps) {
            let fv = jobs_for(c, prints, front)->Ok_0;
            let w = work_for(c, prints, deps.last().0, deps.last().1)->Ok_0;
            assert(v == fv.push((deps.last().0, w)));
            assert(names::keys(v) =~= names::keys(fv).push(deps.last().0));
            assert(names::keys(deps) =~= names::keys(front).push(deps.last().0));
        }
    } else if let Ok(v) = jobs_for(c, prints, deps) {
        assert(names::keys(v) =~= names::keys(deps));
    }
}

/// Planning the jobs fails only over a remote dependency that is not locked.
pub proof fn law_locked_dependencies_get_jobs(
    c: DepsCtxV,
    prints: Seq<(Seq<char>, Seq<char>)>,
    deps: Seq<(Seq<char>, DependencyV)>,
)
    ensures
        jobs_for(c, prints, deps) is Ok <==> (forall|i: int|
            0 <= i < deps.len() && (#[trigger] deps[i]).1.local is None ==> lock::pinned(
                c.lock,
                deps[i].0,
            ) is Some),
    decreases deps.len(),
{
    if deps.len() > 0 {
        let front = deps.drop_last();
        law_locked_dependencies_get_jobs(c, prints, front);
        if jobs_for(c, prints, deps) is Ok {
            assert forall|i: int|
                0 <= i < deps.len() && (#[trigger] deps[i]).1.local is None implies lock::pinned(
                c.lock,
                deps[i].0,
            ) is Some by {
                if i < front.len() {
                    assert(front[i] == deps[i]);
                }
            }
        } else if jobs_for(c, prints, front) is Err {
            let i = choose|i: int|
                0 <= i < front.len() && (#[trigger] front[i]).1.local is None && lock::pinned(
                    c.lock,
                    front[i].0,
                ) is None;
            assert(deps[i] == front[i]);
        } else {
            assert(deps[deps.len() - 1].1.local is None);
        }
    }
}

/// Once every fetch of a build was resolved and recorded, all of its remote
/// dependencies are locked: a build needs no `conjure lock` before it.
pub proof fn law_a_build_locks_what_it_fetches(
    c: DepsCtxV,
    deps: Seq<(Seq<char>, DependencyV)>,
    fetches: Seq<RemoteFetchV>,
    resolved: Seq<Option<ResolvedV>>,
    i: int,
)
    requires
        fetches_for(c, deps) == Ok::<Seq<RemoteFetchV>, Seq<char>>(fetches),
        fetches.len() == resolved.len(),
        forall|k: int|
            0 <= k < fetches.len() && (#[trigger] fetches[k]).pin is Resolve ==> resolved[k] is Some,
        0 <= i < deps.len(),
        deps[i].1.local is None,
    ensures
        lock::pinned(
            relocked(c.lock, fetches, resolved, fetches.len() as int),
            deps[i].0,
        ) is Some,
{
    let name = deps[i].0;
    lemma_stays_pinned(c.lock, fetches, resolved, fetches.len() as int, name);
    if lock::pinned(c.lock, name) is None {
        lemma_fetches_hold(c, deps, i);
        let k = choose|k: int|
            0 <= k < fetches.len() && (#[trigger] fetches[k]).name == name && fetches[k].pin is Resolve;
        assert(resolved[k] is Some);
    }
}

/// A build whose fetches were all resolved gets a job for every dependency: it
/// never stops over one that is not locked.
pub proof fn law_fetched_builds_have_jobs(
    c: DepsCtxV,
    deps: Seq<(Seq<char>, DependencyV)>,
    prints: Seq<(Seq<char>, Seq<char>)>,
    fetches: Seq<RemoteFetchV>,
    resolved: Seq<Option<ResolvedV>>,
)
    requires
        fetches_for(c, deps) == Ok::<Seq<RemoteFetchV>, Seq<char>>(fetches),
        fetches.len() == resolved.len(),
        forall|k: int|
            0 <= k < fetches.len() && (#[trigger] fetches[k]).pin is Resolve ==> resolved[k] is Some,
    ensures
        ({
            let next = DepsCtxV {
                lock: relocked(c.lock, fetches, resolved, fetches.len() as int),
                ..c
            };
            jobs_for(next, prints, deps) matches Ok(v) && names::keys(v) == names::keys(deps)
        }),
{
    let next = DepsCtxV {
        lock: relocked(c.lock, fetches, resolved, fetches.len() as int),
        ..c
    };
    assert forall|i: int|
        0 <= i < deps.len() && (#[trigger] deps[i]).1.local is None implies lock::pinned(
        next.lock,
        deps[i].0,
    ) is Some by {
        law_a_build_locks_what_it_fetches(c, deps, fetches, resolved, i);
    }
    law_locked_dependencies_get_jobs(next, prints, deps);
    law_jobs_follow_the_manifest(next, prints, deps);
}

proof fn lemma_fetches_hold(c: DepsCtxV, deps: Seq<(Seq<char>, DependencyV)>, i: int)
    requires
        fetches_for(c, deps) is Ok,
        0 <= i < deps.len(),
        deps[i].1.local is None,
        lock::pinned(c.lock, deps[i].0) is None,
    ensures
        exists|k: int|
            0 <= k < fetches_for(c, deps)->Ok_0.len() && (#[trigger] fetches_for(
                c,
                deps,
            )->Ok_0[k]).name == deps[i].0 && fetches_for(c, deps)->Ok_0[k].pin is Resolve,
    decreases deps.len(),
{
    let front = deps.drop_last();
    let v = fetches_for(c, deps)->Ok_0;
    let fv = fetches_for(c, front)->Ok_0;
    if i < front.len() {
        lemma_fetches_hold(c, front, i);
        let k = choose|k: int|
            0 <= k < fv.len() && (#[trigger] fv[k]).name == front[i].0 && fv[k].pin is Resolve;
        assert(v[k] == fv[k]);
    } else {
        assert(v[v.len() - 1].name == deps[i].0);
        assert(v[v.len() - 1].pin is Resolve);
    }
}

/// A dependency whose job was done is found in the cache by the next build that
/// asks for it under the same key.
pub proof fn law_built_dependencies_are_reused(
    c: DepsCtxV,
    prints: Seq<(Seq<char>, Seq<char>)>,
    name: Seq<char>,
    d: DependencyV,
    lib: Seq<char>,
    present: Seq<Seq<char>>,
)
    requires
        work_for(c, prints, name, d) matches Ok(w) && !(w is Cached),
        present.contains(lib),
    ensures
        ({
            let w = work_for(c, prints, name, d)->Ok_0;
            let next = DepsCtxV {
                cache: cache_after(c.cache, ctx_scope(c), (name, w), lib),
                present,
                ..c
            };
            work_for(next, prints, name, d) == Ok::<DepWorkV, Seq<char>>(DepWorkV::Cached(lib))
        }),
{
    let w = work_for(c, prints, name, d)->Ok_0;
    let key = match w {
        DepWorkV::Local { dep_dir: _, key } => key,
        DepWorkV::Remote { dep_dir: _, key } => key,
        DepWorkV::Cached(_) => Seq::empty(),
    };
    dep_cache::law_hit_after_insert(c.cache, ctx_scope(c), name, key, lib, key);
}

/// How far the build of a project's dependencies has come.
#[derive(Debug)]
pub enum DepsEvent {
    /// Nothing done yet.
    Begin,
    /// The fetches are done, and these names were pinned.
    Fetched(Vec<String>),
    /// The lockfile is saved.
    Locked,
    /// The jobs are planned, and those before this one are done.
    Built(usize),
}

/// The model of a [`DepsEvent`].
pub enum DepsEventV {
    Begin,
    Fetched(Seq<Seq<char>>),
    Locked,
    Built(usize),
}

impl View for DepsEvent {
    type V = DepsEventV;

    open spec fn view(&self) -> DepsEventV {
        match *self {
            DepsEvent::Begin => DepsEventV::Begin,
            DepsEvent::Fetched(names) => DepsEventV::Fetched(text::texts(names@)),
            DepsEvent::Locked => DepsEventV::Locked,
            DepsEvent::Built(n) => DepsEventV::Built(n),
        }
    }
}

/// What has to be done next to build a project's dependencies.
#[derive(Debug)]
pub enum DepsAction {
    /// Nothing: no library is linked.
    Nothing,
    /// Fetch these, and pin what they resolve to.
    Fetch(Vec<RemoteFetch>),
    /// Save the lockfile.
    SaveLock,
    /// Plan the jobs.
    Plan,
    /// Build the dependency of a job.
    Build(usize),
    /// Record what was built, save the cache, and link the libraries.
    Finish,
}

/// The model of a [`DepsAction`].
pub enum DepsActionV {
    Nothing,
    Fetch(Seq<RemoteFetchV>),
    SaveLock,
    Plan,
    Build(int),
    Finish,
}

impl View for DepsAction {
    type V = DepsActionV;

    open spec fn view(&self) -> DepsActionV {
        match *self {
            DepsAction::Nothing => DepsActionV::Nothing,
            DepsAction::Fetch(f) => DepsActionV::Fetch(fetches_view(f@)),
            DepsAction::SaveLock => DepsActionV::SaveLock,
            DepsAction::Plan => DepsActionV::Plan,
            DepsAction::Build(i) => DepsActionV::Build(i as int),
            DepsAction::Finish => DepsActionV::Finish,
        }
    }
}

/// The first job from `n` on that has to be built, or the number of jobs where
/// there is none.
pub open spec fn next_build(jobs: Seq<(Seq<char>, DepWorkV)>, n: int) -> int
    decreases jobs.len() - n,
{
    if n >= jobs.len() || !(jobs[n].1 is Cached) {
        n
    } else {
        next_build(jobs, n + 1)
    }
}

/// What follows once the lockfile is in order. A static library archives objects
/// and needs none of the libraries.
pub open spec fn after_lock(p: ProjectV) -> DepsActionV {
    if links_deps(p) {
        DepsActionV::Plan
    } else {
        DepsActionV::Nothing
    }
}

/// What an event leads to: the fetches come first, then the lockfile where it
/// changed, then the jobs, in manifest order.
pub open spec fn deps_step(
    c: DepsCtxV,
    jobs: Seq<(Seq<char>, DepWorkV)>,
    event: DepsEventV,
) -> Result<DepsActionV, FaultV> {
    match event {
        DepsEventV::Begin => match c.project.dependencies {
            None => Ok(DepsActionV::Nothing),
            Some(deps) => if deps.len() == 0 {
                Ok(DepsActionV::Nothing)
            } else if c.project.compile is None {
                Err(
                    diag::hinted(
                        "No compile section in conjure.kdl"@,
                        "Double check if there's a compile section in the conjure.kdl"@,
                    ),
                )
            } else {
                match fetches_for(c, deps) {
                    Ok(f) => Ok(DepsActionV::Fetch(f)),
                    Err(e) => Err(diag::plain(e)),
                }
            },
        },
        DepsEventV::Fetched(pinned) => if pinned.len() > 0 {
            Ok(DepsActionV::SaveLock)
        } else {
            Ok(after_lock(c.project))
        },
        DepsEventV::Locked => Ok(after_lock(c.project)),
        DepsEventV::Built(n) => {
            let i = next_build(jobs, n as int);
            if i < jobs.len() {
                Ok(DepsActionV::Build(i))
            } else {
                Ok(DepsActionV::Finish)
            }
        },
    }
}

/// Decide what has to be done next to build a project's dependencies. `jobs` are
/// those that were planned, once they are.
pub fn build_deps(ctx: &DepsCtx, jobs: &Vec<DepJob>, event: &DepsEvent) -> (out: Result<
    DepsAction,
    Fault,
>)
    ensures
        match out {
            Ok(a) => deps_step(ctx@, jobs_view(jobs@), event@) == Ok::<DepsActionV, FaultV>(a@),
            Err(e) => deps_step(ctx@, jobs_view(jobs@), event@) == Err::<DepsActionV, FaultV>(e@),
        },
{
    match event {
        DepsEvent::Begin => match &ctx.project.dependencies {
            None => Ok(DepsAction::Nothing),
            Some(deps) => if deps.is_empty() {
                Ok(DepsAction::Nothing)
            } else if ctx.project.compile.is_none() {
                Err(
                    Fault::hinted(
                        "No compile section in conjure.kdl".to_owned(),
                        "Double check if there's a compile section in the conjure.kdl",
                    ),
                )
            } else {
                match plan_fetches(ctx, deps) {
                    Ok(f) => Ok(DepsAction::Fetch(f)),
                    Err(e) => Err(Fault::plain(e)),
                }
            },
        },
        DepsEvent::Fetched(pinned) => if pinned.len() > 0 {
            Ok(DepsAction::SaveLock)
        } else if link_deps(ctx.project) {
            Ok(DepsAction::Plan)
        } else {
            Ok(DepsAction::Nothing)
        },
        DepsEvent::Locked => if link_deps(ctx.project) {
            Ok(DepsAction::Plan)
        } else {
            Ok(DepsAction::Nothing)
        },
        DepsEvent::Built(n) => {
            let ghost jv = jobs_view(jobs@);
            let mut i: usize = *n;
            while i < jobs.len()
                invariant
                    jv == jobs_view(jobs@),
                    event@ == DepsEventV::Built(*n),
                    next_build(jv, *n as int) == next_build(jv, i as int),
                decreases jobs@.len() - i,
            {
                proof {
                    assert(jv[i as int] == (jobs@[i as int].name@, jobs@[i as int].work@));
                }
                match &jobs[i].work {
                    DepWork::Cached(_) => {},
                    _ => return Ok(DepsAction::Build(i)),
                }
                i += 1;
            }
            Ok(DepsAction::Finish)
        },
    }
}

/// A static library never has the jobs of its dependencies planned, and without
/// jobs nothing is built.
pub proof fn law_static_library_builds_no_dependency(
    c: DepsCtxV,
    jobs: Seq<(Seq<char>, DepWorkV)>,
    event: DepsEventV,
)
    requires
        c.project.ty == ProjectType::Library,
        c.project.link == Linkage::Static,
    ensures
        deps_step(c, jobs, event) matches Ok(a) ==> !(a is Plan) && (jobs.len() == 0 ==> !(
        a is Build)),
{
}

proof fn lemma_next_build(jobs: Seq<(Seq<char>, DepWorkV)>, n: int)
    requires
        0 <= n <= jobs.len(),
    ensures
        n <= next_build(jobs, n) <= jobs.len(),
        next_build(jobs, n) < jobs.len() ==> !(jobs[next_build(jobs, n)].1 is Cached),
        forall|k: int| n <= k < next_build(jobs, n) ==> (#[trigger] jobs[k]).1 is Cached,
    decreases jobs.len() - n,
{
    if n < jobs.len() && jobs[n].1 is Cached {
        lemma_next_build(jobs, n + 1);
    }
}

/// Dependencies are built in manifest order, only those that are not cached, and
/// all of them before anything is linked.
pub proof fn law_only_uncached_dependencies_are_built(
    c: DepsCtxV,
    jobs: Seq<(Seq<char>, DepWorkV)>,
    n: usize,
)
    requires
        n <= jobs.len(),
    ensures
        match deps_step(c, jobs, DepsEventV::Built(n)) {
            Ok(DepsActionV::Build(i)) => n <= i < jobs.len() && !(jobs[i].1 is Cached) && forall|
                k: int,
            |
                n <= k < i ==> (#[trigger] jobs[k]).1 is Cached,
            Ok(DepsActionV::Finish) => forall|k: int|
                n <= k < jobs.len() ==> (#[trigger] jobs[k]).1 is Cached,
            _ => false,
        },
{
    lemma_next_build(jobs, n as int);
}

// ---------------------------------------------------------------------------
// pkg-config
// ---------------------------------------------------------------------------

/// The arguments of `pkg-config` for some packages. A static library only wants
/// compile flags; `--static` only affects the libraries.
pub open spec fn pkg_args(p: ProjectV, pkgs: Seq<Seq<char>>) -> Seq<Seq<char>> {
    seq!["--cflags"@] + (if links_deps(p) {
        seq!["--libs"@] + (if p.link == Linkage::Static {
            seq!["--static"@]
        } else {
            Seq::empty()
        })
    } else {
        Seq::empty()
    }) + pkgs
}

/// Where `pkg-config` looks for packages: in the dependency's build directory
/// first.
pub open spec fn pkg_path(build_dir: Seq<char>, inherited: Option<Seq<char>>) -> Seq<char> {
    match inherited {
        Some(p) => build_dir + ":"@ + p,
        None => build_dir,
    }
}

/// One question to `pkg-config`.
#[derive(Debug)]
pub struct PkgQuery {
    pub name: String,
    pub args: Vec<String>,
    pub path: String,
}

/// The model of a [`PkgQuery`].
pub struct PkgQueryV {
    pub name: Seq<char>,
    pub args: Seq<Seq<char>>,
    pub path: Seq<char>,
}

impl View for PkgQuery {
    type V = PkgQueryV;

    open spec fn view(&self) -> PkgQueryV {
        PkgQueryV { name: self.name@, args: text::texts(self.args@), path: self.path@ }
    }
}

/// The model of a list of [`PkgQuery`]s.
pub open spec fn queries_view(v: Seq<PkgQuery>) -> Seq<PkgQueryV> {
    v.map_values(|q: PkgQuery| q@)
}

/// The questions for the dependencies called `order`: one for each that names
/// packages.
pub open spec fn queries_in(
    p: ProjectV,
    deps: Seq<(Seq<char>, DependencyV)>,
    order: Seq<Seq<char>>,
    dir: Seq<char>,
    root: Seq<char>,
    scope: Seq<char>,
    inherited: Option<Seq<char>>,
) -> Seq<PkgQueryV>
    decreases order.len(),
{
    if order.len() == 0 {
        Seq::empty()
    } else {
        let name = order.last();
        let d = names::lookup(deps, name)->0;
        let front = queries_in(p, deps, order.drop_last(), dir, root, scope, inherited);
        match d.pkg_config {
            Some(pkgs) => front.push(
                PkgQueryV {
                    name,
                    args: pkg_args(p, pkgs),
                    path: pkg_path(
                        paths::joined(source_dir(name, d, dir, root, scope), "build"@),
                        inherited,
                    ),
                },
            ),
            None => front,
        }
    }
}

/// The questions a project has for `pkg-config`, sorted by dependency.
pub open spec fn pkg_queries(
    p: ProjectV,
    dir: Seq<char>,
    root: Seq<char>,
    inherited: Option<Seq<char>>,
) -> Seq<PkgQueryV> {
    match p.dependencies {
        Some(d) => queries_in(
            p,
            d,
            order::sorted(names::keys(d)),
            dir,
            root,
            scope_from(paths::stripped(dir, root)),
            inherited,
        ),
        None => Seq::empty(),
    }
}

fn query_for(project: &Project, name: &str, pkgs: &Vec<String>, base: &str, inherited: &Option<
    String,
>) -> (out: PkgQuery)
    ensures
        out@ == (PkgQueryV {
            name: name@,
            args: pkg_args(project@, text::texts(pkgs@)),
            path: pkg_path(paths::joined(base@, "build"@), text::opt(*inherited)),
        }),
{
    let build_dir = paths::join(base, "build");
    let path = match inherited {
        Some(p) => text::cat3(build_dir.as_str(), ":", p.as_str()),
        None => build_dir,
    };
    let mut args = text::one("--cflags");
    if link_deps(project) {
        text::push_text(&mut args, "--libs");
        if project.want_static() {
            text::push_text(&mut args, "--static");
        }
    }
    proof {
        assert(text::texts(args@) =~= seq!["--cflags"@] + (if links_deps(project@) {
            seq!["--libs"@] + (if project@.link == Linkage::Static {
                seq!["--static"@]
            } else {
                Seq::empty()
            })
        } else {
            Seq::empty()
        }));
    }
    text::extend_texts(&mut args, pkgs.as_slice());
    PkgQuery { name: name.to_owned(), args, path }
}

/// What to ask `pkg-config` for a project's deps. `inherited` is the search path
/// that is set already.
pub fn plan_pkg_config(project: &Project, dir: &str, root: &str, inherited: &Option<String>) -> (out:
    Vec<PkgQuery>)
    ensures
        queries_view(out@) == pkg_queries(project@, dir@, root@, text::opt(*inherited)),
{
    let scope = scope_of(root, dir);
    let mut out: Vec<PkgQuery> = Vec::new();
    proof {
        assert(queries_view(out@) =~= Seq::empty());
    }
    match &project.dependencies {
        None => out,
        Some(deps) => {
            let sorted_names = deps.sorted_keys();
            let ghost want = order::sorted(names::keys(deps@));
            let ghost inh = text::opt(*inherited);
            let mut i: usize = 0;
            proof {
                assert(want.take(0) =~= Seq::empty());
            }
            while i < sorted_names.len()
                invariant
                    i <= sorted_names@.len(),
                    want == text::texts(sorted_names@),
                    want == order::sorted(names::keys(deps@)),
                    scope@ == scope_from(paths::stripped(dir@, root@)),
                    inh == text::opt(*inherited),
                    queries_view(out@) == queries_in(
                        project@,
                        deps@,
                        want.take(i as int),
                        dir@,
                        root@,
                        scope@,
                        inh,
                    ),
                decreases sorted_names@.len() - i,
            {
                let name = sorted_names[i].as_str();
                proof {
                    assert(want[i as int] == name@);
                    assert(want.contains(name@));
                    order::law_sorted(names::keys(deps@));
                    names::lemma_holds(deps@, name@);
                    assert(want.take(i + 1).drop_last() =~= want.take(i as int));
                    assert(want.take(i + 1).last() == name@);
                }
                if let Some(dep) = deps.get(name) {
                    if let Some(pkgs) = &dep.pkg_config {
                        let base = dep_dir(name, dep, dir, root, scope.as_str());
                        let q = query_for(project, name, pkgs, base.as_str(), inherited);
                        let ghost before = out@;
                        let ghost qv = q@;
                        out.push(q);
                        proof {
                            assert(queries_view(out@) =~= queries_view(before).push(qv));
                        }
                    }
                }
                i += 1;
            }
            proof {
                assert(want.take(i as int) =~= want);
            }
            out
        },
    }
}

/// The compile flags in some answers, one after the other.
pub open spec fn answered_cflags(answers: Seq<Seq<char>>) -> Seq<Seq<char>>
    decreases answers.len(),
{
    if answers.len() == 0 {
        Seq::empty()
    } else {
        answered_cflags(answers.drop_last()) + compile_part(text::white_words(answers.last()))
    }
}

/// The link inputs in some answers, one after the other.
pub open spec fn answered_libs(answers: Seq<Seq<char>>) -> Seq<Seq<char>>
    decreases answers.len(),
{
    if answers.len() == 0 {
        Seq::empty()
    } else {
        answered_libs(answers.drop_last()) + link_part(text::white_words(answers.last()))
    }
}

/// Resolve `pkg_config` entries for a project's deps into `(cflags, libs)`, from
/// what `pkg-config` answered.
///
/// A static library never links dep libraries, so it gets no libs.
pub fn resolve_pkg_config(project: &Project, answers: &[String]) -> (out: (Vec<String>, Vec<String>))
    ensures
        text::texts(out.0@) == answered_cflags(text::texts(answers@)),
        text::texts(out.1@) == (if links_deps(project@) {
            answered_libs(text::texts(answers@))
        } else {
            Seq::<Seq<char>>::empty()
        }),
{
    let ghost all = text::texts(answers@);
    let mut cflags = text::none();
    let mut libs = text::none();
    let mut i: usize = 0;
    proof {
        assert(all.take(0) =~= Seq::empty());
    }
    while i < answers.len()
        invariant
            i <= answers@.len(),
            all == text::texts(answers@),
            text::texts(cflags@) == answered_cflags(all.take(i as int)),
            text::texts(libs@) == answered_libs(all.take(i as int)),
        decreases answers@.len() - i,
    {
        proof {
            assert(all.take(i + 1).drop_last() =~= all.take(i as int));
            assert(all.take(i + 1).last() == answers@[i as int]@);
        }
        let (cf, lb) = split_cflags_and_libs(answers[i].as_str());
        text::extend_texts(&mut cflags, cf.as_slice());
        text::extend_texts(&mut libs, lb.as_slice());
        i += 1;
    }
    proof {
        assert(all.take(i as int) =~= all);
    }
    if link_deps(project) {
        (cflags, libs)
    } else {
        (cflags, text::none())
    }
}

/// Why `pkg-config` could not be asked about a dependency.
pub open spec fn pkg_unasked(name: Seq<char>, pkgs: Seq<Seq<char>>, reason: Seq<char>) -> FaultV {
    diag::hinted(
        "Failed to run pkg-config for dependency `"@ + name + "` ("@ + text::debug_list(pkgs)
            + "): "@ + reason,
        "Install pkg-config, or remove the `pkg_config` field from dependency `"@ + name + "`"@,
    )
}

/// Why `pkg-config` could not be asked about a dependency.
pub fn pkg_start_fault(name: &str, pkgs: &[String], reason: &str) -> (out: Fault)
    ensures
        out@ == pkg_unasked(name@, text::texts(pkgs@), reason@),
{
    let shown = text::debug_list_of(pkgs);
    let a = text::cat3("Failed to run pkg-config for dependency `", name, "` (");
    let b = text::cat3(a.as_str(), shown.as_str(), "): ");
    let help = text::cat3(
        "Install pkg-config, or remove the `pkg_config` field from dependency `",
        name,
        "`",
    );
    Fault::hinted(text::cat(b.as_str(), reason), help.as_str())
}

/// What is reported where `pkg-config` knows nothing of a dependency's packages.
pub open spec fn pkg_unknown(name: Seq<char>, pkgs: Seq<Seq<char>>, stderr: Seq<char>) -> FaultV {
    diag::hinted(
        "pkg-config failed for dependency `"@ + name + "` ("@ + text::debug_list(pkgs) + "): "@
            + stderr,
        "Make sure `"@ + text::debug_list(pkgs) + "` is installed and on PKG_CONFIG_PATH"@,
    )
}

/// What is reported where `pkg-config` knows nothing of a dependency's packages.
pub fn pkg_fault(name: &str, pkgs: &[String], stderr: &str) -> (out: Fault)
    ensures
        out@ == pkg_unknown(name@, text::texts(pkgs@), stderr@),
{
    let shown = text::debug_list_of(pkgs);
    let a = text::cat3("pkg-config failed for dependency `", name, "` (");
    let b = text::cat3(a.as_str(), shown.as_str(), "): ");
    let help = text::cat3("Make sure `", shown.as_str(), "` is installed and on PKG_CONFIG_PATH");
    Fault::hinted(text::cat(b.as_str(), stderr), help.as_str())
}

// ---------------------------------------------------------------------------
// What must hold of dependencies
// ---------------------------------------------------------------------------

/// A build runs in the tree that was configured for it: `cmake --build .` runs in
/// the directory that the configuration names behind `-B`, and `meson compile` in the
/// one that `meson setup` names, as seen from where each was configured; and what is
/// configured is the dependency itself.
pub proof fn law_builds_run_where_they_were_configured(
    dir: Seq<char>,
    target: Option<Seq<char>>,
    threads: nat,
)
    ensures
        ({
            let cmake = build_commands(dir, BuildSystemV::CMake(target), threads);
            let meson = build_commands(dir, BuildSystemV::Meson(target), threads);
            &&& cmake.len() == 2 && cmake[0].0 == dir
            &&& cmake[0].1.len() == 5 && cmake[0].1[0] == "cmake"@
            &&& cmake[0].1[1] == "-S"@ && cmake[0].1[2] == "."@
            &&& cmake[0].1[3] == "-B"@
            &&& cmake[1].1[0] == "cmake"@ && cmake[1].1[1] == "--build"@ && cmake[1].1[2] == "."@
            &&& cmake[1].0 == paths::joined(cmake[0].0, cmake[0].1[4])
            &&& meson.len() == 2 && meson[0].0 == dir
            &&& meson[0].1.len() == 4 && meson[0].1[0] == "meson"@
            &&& meson[0].1[1] == "setup"@ && meson[0].1[3] == "."@
            &&& meson[1].1[0] == "meson"@ && meson[1].1[1] == "compile"@
            &&& meson[1].0 == paths::joined(meson[0].0, meson[0].1[2])
        }),
{
}

/// Each build system is driven by its own commands, in the directory of the
/// dependency, with the threads that are asked for, and for the target that is asked
/// for.
pub proof fn law_build_systems_are_driven(
    dir: Seq<char>,
    target: Option<Seq<char>>,
    word: Seq<char>,
    threads: nat,
)
    ensures
        ({
            let n = text::decimal(threads);
            let last = match target {
                Some(t) => seq![t],
                None => Seq::<Seq<char>>::empty(),
            };
            let commands = |b: BuildSystemV| build_commands(dir, b, threads);
            let make = commands(BuildSystemV::Make(target));
            let cmake = commands(BuildSystemV::CMake(target));
            let autotools = commands(BuildSystemV::Autotools(target));
            let meson = commands(BuildSystemV::Meson(target));
            let ninja = commands(BuildSystemV::Ninja(target));
            let xmake = commands(BuildSystemV::Xmake(target));
            let just = commands(BuildSystemV::Just(word));
            let custom = commands(BuildSystemV::Custom(word));
            &&& make.len() == 1 && make[0] == (dir, seq!["make"@, "-j"@ + n] + last)
            &&& cmake[1].1 == seq!["cmake"@, "--build"@, "."@, "--parallel"@, n] + (match target {
                Some(t) => seq!["--target"@, t],
                None => Seq::empty(),
            })
            &&& autotools.len() == 2 && autotools[0] == (dir, seq!["./configure"@])
            &&& autotools[1] == (dir, seq!["make"@, "-j"@ + n] + last)
            &&& meson[1].1 == seq!["meson"@, "compile"@, "-j"@, n] + last
            &&& ninja.len() == 1 && ninja[0] == (dir, seq!["ninja"@, "-j"@ + n] + last)
            &&& xmake.len() == 1 && xmake[0] == (dir, seq!["xmake"@, "-j"@ + n] + last)
            &&& just.len() == 1 && just[0] == (dir, seq!["just"@, word])
            &&& custom.len() == 1 && custom[0] == (dir, seq!["sh"@, "-c"@, word])
            &&& commands(BuildSystemV::Conjure(target)).len() == 0
        }),
{
}

/// An explicit build system wins; otherwise conjure builds what has a manifest, and
/// make the rest.
pub proof fn law_build_system_of_a_dependency(d: DependencyV, has_manifest: bool)
    ensures
        d.build matches Some(b) ==> system_for(d, has_manifest) == b,
        d.build is None && has_manifest ==> system_for(d, has_manifest) == BuildSystemV::Conjure(
            None,
        ),
        d.build is None && !has_manifest ==> system_for(d, has_manifest) == BuildSystemV::Make(
            None,
        ),
{
}

/// A local dependency lies where it is said to, seen from the project; a remote one
/// in the cache of the root, apart from those of other projects.
pub proof fn law_where_a_dependency_lies(
    name: Seq<char>,
    d: DependencyV,
    dir: Seq<char>,
    root: Seq<char>,
)
    ensures
        ({
            let below = paths::stripped(dir, root);
            let at = source_dir(name, d, dir, root, scope_from(below));
            let cache = paths::joined(paths::joined(root, ".conjure"@), "deps"@);
            let own = below is Some && below->0.len() > 0 && below->0 != "."@;
            &&& d.local matches Some(p) ==> at == paths::joined(dir, p)
            &&& d.local is None && own ==> at == paths::joined(
                paths::joined(cache, below->0),
                name,
            )
            &&& d.local is None && !own ==> at == paths::joined(cache, name)
        }),
{
}

/// A dependency is fetched to the place where it is built and where its headers are
/// looked for, from the address that its remote stands for.
pub proof fn law_fetches_go_where_builds_look(
    c: DepsCtxV,
    prints: Seq<(Seq<char>, Seq<char>)>,
    name: Seq<char>,
    d: DependencyV,
)
    ensures
        ({
            let at = source_dir(
                name,
                d,
                c.dir,
                c.root,
                scope_from(paths::stripped(c.dir, c.root)),
            );
            &&& fetch_for(c, name, d) matches Ok(Some(f)) ==> {
                &&& f.dep_dir == at
                &&& f.name == name
                &&& f.remote == d.remote && f.transport == d.transport && f.git_ref == d.git_ref
                &&& clone_url(name, d) == Ok::<Seq<char>, Seq<char>>(f.url)
            }
            &&& work_for(c, prints, name, d) matches Ok(w) ==> match w {
                DepWorkV::Local { dep_dir, key: _ } => dep_dir == at && d.local is Some,
                DepWorkV::Remote { dep_dir, key: _ } => dep_dir == at && d.local is None,
                DepWorkV::Cached(_) => true,
            }
        }),
{
}

/// The address of a remote: its host, its path, and `https` only where that is asked
/// for.
pub proof fn law_remotes_have_addresses(name: Seq<char>, d: DependencyV)
    ensures
        ({
            let transport = if d.transport == Some(Transport::Https) {
                "https"@
            } else {
                "ssh"@
            };
            &&& d.remote is None ==> clone_url(name, d) is Err
            &&& d.remote matches Some(RemoteV::Codeberg(p)) ==> clone_url(name, d) == Ok::<
                Seq<char>,
                Seq<char>,
            >(git::url("codeberg"@, p, transport))
            &&& d.remote matches Some(RemoteV::GitHub(p)) ==> clone_url(name, d) == Ok::<
                Seq<char>,
                Seq<char>,
            >(git::url("github"@, p, transport))
            &&& d.remote matches Some(RemoteV::BitBucket(p)) ==> clone_url(name, d) == Ok::<
                Seq<char>,
                Seq<char>,
            >(git::url("bitbucket"@, p, transport))
            &&& d.remote matches Some(RemoteV::Git(p)) ==> clone_url(name, d) == Ok::<
                Seq<char>,
                Seq<char>,
            >(p)
        }),
{
    reveal_strlit("git");
    reveal_strlit("codeberg");
    reveal_strlit("github");
    reveal_strlit("bitbucket");
    assert("git"@.len() == 3 && "github"@.len() == 6);
    assert("codeberg"@[0] == 'c' && "bitbucket"@[0] == 'b' && "git"@[0] == 'g');
}

/// A remote dependency is fetched unless it is pinned, and a library that is still
/// there was built from that pin for this linkage; a local one never is.
pub proof fn law_what_is_fetched(c: DepsCtxV, name: Seq<char>, d: DependencyV)
    requires
        d.remote is Some || d.local is Some,
    ensures
        ({
            let tag = if c.project.link == Linkage::Static {
                ":s"@
            } else {
                ":d"@
            };
            let scope = scope_from(paths::stripped(c.dir, c.root));
            let built = match lock::pinned(c.lock, name) {
                Some(commit) => match dep_cache::library_for(c.cache, scope, name, commit + tag) {
                    Some(lib) => c.present.contains(lib),
                    None => false,
                },
                None => false,
            };
            &&& fetch_for(c, name, d) is Ok
            &&& fetch_for(c, name, d)->Ok_0 is None <==> d.local is Some || built
        }),
{
}

/// A dependency is taken from the cache exactly where a library that is still there
/// was recorded under its key; its key is its pin, or the print of its sources, with
/// the linkage.
pub proof fn law_what_is_built(
    c: DepsCtxV,
    prints: Seq<(Seq<char>, Seq<char>)>,
    name: Seq<char>,
    d: DependencyV,
)
    requires
        d.local is Some || lock::pinned(c.lock, name) is Some,
    ensures
        ({
            let tag = if c.project.link == Linkage::Static {
                ":s"@
            } else {
                ":d"@
            };
            let scope = scope_from(paths::stripped(c.dir, c.root));
            let from = if d.local is Some {
                names::lookup(prints, name)->0
            } else {
                lock::pinned(c.lock, name)->0
            };
            let found = dep_cache::library_for(c.cache, scope, name, from + tag);
            &&& work_for(c, prints, name, d) is Ok
            &&& match work_for(c, prints, name, d)->Ok_0 {
                DepWorkV::Cached(lib) => found == Some(lib) && c.present.contains(lib),
                DepWorkV::Local { dep_dir: _, key } => key == from + tag && (found is None
                    || !c.present.contains(found->0)),
                DepWorkV::Remote { dep_dir: _, key } => key == from + tag && (found is None
                    || !c.present.contains(found->0)),
            }
        }),
{
}

/// The libraries that a project links are those of its dependencies, one for each and
/// in their order: the cached one, or the one that was just built.
pub proof fn law_libraries_of_the_dependencies(
    jobs: Seq<(Seq<char>, DepWorkV)>,
    built: Seq<Seq<char>>,
    i: int,
)
    requires
        jobs.len() == built.len(),
        0 <= i < jobs.len(),
    ensures
        libs_of(jobs, built).len() == jobs.len(),
        match jobs[i].1 {
            DepWorkV::Cached(lib) => libs_of(jobs, built)[i] == lib,
            _ => libs_of(jobs, built)[i] == built[i],
        },
{
}

/// What is done about dependencies, step by step: nothing where there are none;
/// else they are fetched, the lockfile is saved where something was pinned, and they
/// are built where the project links them.
pub proof fn law_steps_of_the_dependencies(
    c: DepsCtxV,
    jobs: Seq<(Seq<char>, DepWorkV)>,
    pinned: Seq<Seq<char>>,
)
    ensures
        ({
            let links = !(c.project.ty == ProjectType::Library && c.project.link
                == Linkage::Static);
            let then = if links {
                Ok::<DepsActionV, FaultV>(DepsActionV::Plan)
            } else {
                Ok(DepsActionV::Nothing)
            };
            let none = c.project.dependencies is None || c.project.dependencies->0.len() == 0;
            let begin = deps_step(c, jobs, DepsEventV::Begin);
            &&& none ==> begin == Ok::<DepsActionV, FaultV>(DepsActionV::Nothing)
            &&& !none && c.project.compile is None ==> begin is Err
            &&& !none && c.project.compile is Some ==> match fetches_for(
                c,
                c.project.dependencies->0,
            ) {
                Ok(f) => begin == Ok::<DepsActionV, FaultV>(DepsActionV::Fetch(f)),
                Err(_) => begin is Err,
            }
            &&& pinned.len() > 0 ==> deps_step(c, jobs, DepsEventV::Fetched(pinned)) == Ok::<
                DepsActionV,
                FaultV,
            >(DepsActionV::SaveLock)
            &&& pinned.len() == 0 ==> deps_step(c, jobs, DepsEventV::Fetched(pinned)) == then
            &&& deps_step(c, jobs, DepsEventV::Locked) == then
        }),
{
}

/// What a lockfile keeps of a fetch: where it came from, and the commit and branch
/// that it was resolved to.
pub proof fn law_pins_say_where_they_come_from(f: RemoteFetchV, r: ResolvedV)
    ensures
        ({
            let e = lock_entry(f, r);
            e.commit == r.commit && e.git_ref == r.git_ref && e.remote == f.remote && e.transport
                == f.transport
        }),
{
}

/// The names that were newly pinned are those of the fetches that were resolved, in
/// order.
pub proof fn law_newly_pinned(
    fetches: Seq<RemoteFetchV>,
    resolved: Seq<Option<ResolvedV>>,
    n: int,
    name: Seq<char>,
)
    requires
        0 <= n <= fetches.len(),
        fetches.len() == resolved.len(),
    ensures
        newly_locked(fetches, resolved, n).contains(name) <==> exists|i: int|
            0 <= i < n && resolved[i] is Some && (#[trigger] fetches[i]).name == name,
    decreases n,
{
    if n > 0 {
        law_newly_pinned(fetches, resolved, n - 1, name);
        let a = newly_locked(fetches, resolved, n - 1);
        lemma_contains_push(a, fetches[n - 1].name, name);
    }
}

/// The include directories of a dependency: those it lists, seen from where it lies,
/// or the conventional ones where it lists none.
pub open spec fn includes_of(d: DependencyV, at: Seq<char>) -> Seq<Seq<char>> {
    match d.includes {
        Some(v) => Seq::new(v.len(), |i: int| paths::joined(at, v[i])),
        None => seq![at, paths::joined(at, "include"@), paths::joined(at, "build"@)],
    }
}

proof fn lemma_include_dirs_in(
    deps: Seq<(Seq<char>, DependencyV)>,
    order: Seq<Seq<char>>,
    dir: Seq<char>,
    root: Seq<char>,
    scope: Seq<char>,
    x: Seq<char>,
)
    ensures
        include_dirs_in(deps, order, dir, root, scope).contains(x) <==> exists|i: int|
            0 <= i < order.len() && includes_of(
                names::lookup(deps, #[trigger] order[i])->0,
                source_dir(order[i], names::lookup(deps, order[i])->0, dir, root, scope),
            ).contains(x),
    decreases order.len(),
{
    if order.len() > 0 {
        let n = order.len() - 1;
        let front = order.drop_last();
        lemma_include_dirs_in(deps, front, dir, root, scope, x);
        let d = names::lookup(deps, order[n])->0;
        let at = source_dir(order[n], d, dir, root, scope);
        assert(include_dirs_of(d, at) =~= includes_of(d, at));
        let a = include_dirs_in(deps, front, dir, root, scope);
        let b = includes_of(d, at);
        let all = a + b;
        if all.contains(x) {
            let k = choose|k: int| 0 <= k < all.len() && all[k] == x;
            if k < a.len() {
                assert(a[k] == x);
                let i = choose|i: int|
                    0 <= i < front.len() && includes_of(
                        names::lookup(deps, #[trigger] front[i])->0,
                        source_dir(front[i], names::lookup(deps, front[i])->0, dir, root, scope),
                    ).contains(x);
                assert(order[i] == front[i]);
            } else {
                assert(b[k - a.len()] == x);
                assert(order[n] == order.last());
            }
        }
        if exists|i: int|
            0 <= i < order.len() && includes_of(
                names::lookup(deps, #[trigger] order[i])->0,
                source_dir(order[i], names::lookup(deps, order[i])->0, dir, root, scope),
            ).contains(x) {
            let i = choose|i: int|
                0 <= i < order.len() && includes_of(
                    names::lookup(deps, #[trigger] order[i])->0,
                    source_dir(order[i], names::lookup(deps, order[i])->0, dir, root, scope),
                ).contains(x);
            if i < n {
                assert(front[i] == order[i]);
                let k = choose|k: int| 0 <= k < a.len() && a[k] == x;
                assert(all[k] == x);
            } else {
                let k = choose|k: int| 0 <= k < b.len() && b[k] == x;
                assert(all[a.len() + k] == x);
            }
        }
    }
}

/// A project's sources see the include directories of every one of its dependencies,
/// and of nothing else.
pub proof fn law_headers_of_the_dependencies(
    p: ProjectV,
    dir: Seq<char>,
    root: Seq<char>,
    x: Seq<char>,
)
    ensures
        p.dependencies is None ==> include_dirs(p, dir, root).len() == 0,
        p.dependencies matches Some(deps) ==> (include_dirs(p, dir, root).contains(x) <==> exists|
            name: Seq<char>,
        | #[trigger]
            names::holds(deps, name) && includes_of(
                names::lookup(deps, name)->0,
                source_dir(
                    name,
                    names::lookup(deps, name)->0,
                    dir,
                    root,
                    scope_from(paths::stripped(dir, root)),
                ),
            ).contains(x)),
{
    if let Some(deps) = p.dependencies {
        let order = order::sorted(names::keys(deps));
        let scope = scope_from(paths::stripped(dir, root));
        order::law_sorted(names::keys(deps));
        lemma_include_dirs_in(deps, order, dir, root, scope, x);
        if include_dirs(p, dir, root).contains(x) {
            let i = choose|i: int|
                0 <= i < order.len() && includes_of(
                    names::lookup(deps, #[trigger] order[i])->0,
                    source_dir(order[i], names::lookup(deps, order[i])->0, dir, root, scope),
                ).contains(x);
            assert(order.contains(order[i]));
            names::lemma_holds(deps, order[i]);
        }
        if exists|name: Seq<char>| #[trigger]
            names::holds(deps, name) && includes_of(
                names::lookup(deps, name)->0,
                source_dir(name, names::lookup(deps, name)->0, dir, root, scope),
            ).contains(x) {
            let name = choose|name: Seq<char>| #[trigger]
                names::holds(deps, name) && includes_of(
                    names::lookup(deps, name)->0,
                    source_dir(name, names::lookup(deps, name)->0, dir, root, scope),
                ).contains(x);
            names::lemma_holds(deps, name);
            assert(order.contains(name));
            let i = choose|i: int| 0 <= i < order.len() && order[i] == name;
            assert(order[i] == name);
        }
    }
}

/// The directories of one dependency stay together and in order.
pub proof fn law_headers_of_one_dependency(
    p: ProjectV,
    name: Seq<char>,
    d: DependencyV,
    dir: Seq<char>,
    root: Seq<char>,
)
    requires
        p.dependencies == Some(seq![(name, d)]),
    ensures
        include_dirs(p, dir, root) == includes_of(
            d,
            source_dir(name, d, dir, root, scope_from(paths::stripped(dir, root))),
        ),
{
    let deps = seq![(name, d)];
    let order = order::sorted(names::keys(deps));
    let scope = scope_from(paths::stripped(dir, root));
    order::law_sorted(names::keys(deps));
    assert(names::keys(deps).len() == 1);
    assert(order.len() == 1);
    assert(order.contains(order[0]));
    assert(names::keys(deps)[0] == name);
    assert(names::keys(deps).contains(order[0]));
    let k = choose|k: int| 0 <= k < 1 && names::keys(deps)[k] == order[0];
    assert(order[0] == name);
    names::lemma_position_is(deps, name, 0);
    assert(order.drop_last() =~= Seq::empty());
    let at = source_dir(name, d, dir, root, scope);
    assert(include_dirs_of(d, at) =~= includes_of(d, at));
    assert(include_dirs_in(deps, order.drop_last(), dir, root, scope) =~= Seq::empty());
    assert(include_dirs(p, dir, root) =~= includes_of(d, at));
}

/// A dependency without a manifest is a library in its parent's language and linkage,
/// built with its parent's settings; its sources are those it names, or else those of
/// its parent; and it sees its parent's include directories, from where the parent
/// lies, and then its own.
pub proof fn law_manifestless_dependencies(
    parent: ProjectV,
    d: DependencyV,
    name: Seq<char>,
    dir: Seq<char>,
)
    ensures
        parent.compile is None ==> manifestless(parent, d, name, dir) is Err,
        parent.compile matches Some(c) ==> (manifestless(parent, d, name, dir) matches Ok(p) && {
            &&& p.name == name && p.ty == ProjectType::Library
            &&& p.language == parent.language && p.link == parent.link
            &&& p.dependencies is None && p.tests is None && p.siblings is None && p.profiles is None
            &&& p.output is None && p.artifact is None
            &&& p.compile matches Some(k) && {
                &&& k.cc == c.cc && k.linker == c.linker && k.standard == c.standard
                &&& k.arch == c.arch && k.threads == c.threads
                &&& k.c_flags == c.c_flags && k.ld_flags == c.ld_flags
                &&& d.src matches Some(v) ==> proj_parse::given(k.src) == v.filter(
                    |t: Seq<char>| t.len() > 0,
                )
                &&& d.src is None ==> proj_parse::given(k.src) == proj_parse::roots(c.src)
                &&& k.includes is None ==> proj_parse::given(c.includes).len() == 0
                &&& k.includes matches Some(f) ==> f == FlagsV::Append(
                    Seq::new(
                        proj_parse::given(c.includes).len(),
                        |i: int| paths::joined(dir, proj_parse::given(c.includes)[i]),
                    ) + (match d.includes {
                        Some(v) => v.filter(|t: Seq<char>| t.len() > 0),
                        None => Seq::empty(),
                    }),
                )
                &&& d.includes matches Some(v) ==> v.filter(|t: Seq<char>| t.len() > 0).len() > 0
                    ==> k.includes is Some
            }
        }),
{
    if let Some(c) = parent.compile {
        proj_parse::law_lists_give_their_items(c.includes);
        proj_parse::law_lists_give_their_items(c.src);
        let own = proj_parse::given(c.includes);
        assert(joined_all(dir, own) =~= Seq::new(own.len(), |i: int| paths::joined(dir, own[i])));
        let roots = proj_parse::roots(c.src);
        if proj_parse::given(c.src).len() > 0 {
            text::lemma_filled(roots);
            text::lemma_filled(proj_parse::written(c.src->0));
        } else {
            reveal_strlit("src");
            assert(roots[0].len() == 3);
            text::lemma_filled(roots);
        }
    }
}

/// A shared library may carry a version behind its end, and is none where something
/// else stands there.
pub proof fn law_versioned_libraries(base: Seq<char>, version: Seq<char>)
    requires
        forall|i: int| 0 <= i < base.len() ==> #[trigger] base[i] != '.',
    ensures
        (forall|i: int|
            0 <= i < version.len() ==> ('0' <= #[trigger] version[i] && version[i] <= '9')
                || version[i] == '.') ==> names_shared(base + ".so."@ + version, Os::Other),
        (exists|i: int|
            0 <= i < version.len() && !(('0' <= #[trigger] version[i] && version[i] <= '9')
                || version[i] == '.')) && !text::ends(base + ".so."@ + version, ".so"@)
            ==> !names_shared(base + ".so."@ + version, Os::Other),
{
    let p = ".so."@;
    let s = base + p + version;
    reveal_strlit(".so.");
    text::law_cut_once(s, p);
    let n = base.len() as int;
    assert(s.subrange(n, n + p.len()) =~= p);
    let (a, b) = text::cut_once(s, p)->0;
    assert(s == a + p + b);
    if a.len() > n {
        assert(s.subrange(n, n + p.len()) != p);
    }
    if a.len() < n {
        assert(s[a.len() as int] == p[0]);
        assert(base[a.len() as int] != '.');
    }
    assert(s.skip(a.len() as int + 4) =~= b);
    assert(s.skip(n + 4) =~= version);
}

/// What is a shared library on each system, and what is a static one, by the end of
/// the name.
pub proof fn law_names_of_libraries(base: Seq<char>)
    ensures
        names_shared(base + ".so"@, Os::Other),
        names_shared(base + ".so"@, Os::MacOs),
        names_shared(base + ".dylib"@, Os::MacOs),
        names_shared(base + ".dll"@, Os::Windows),
        names_static(base + ".a"@, false),
        names_static(base + ".a"@, true),
        names_static(base + ".lib"@, true),
        !names_static(base + ".lib"@, false),
        !names_static(base + ".so"@, true),
        !names_static(base + ".dylib"@, true),
        !names_static(base + ".dll"@, true),
        !names_shared(base + ".lib"@, Os::Windows),
        !names_shared(base + ".a"@, Os::Windows),
        !names_shared(base + ".a"@, Os::MacOs),
{
    reveal_strlit(".so");
    reveal_strlit(".dylib");
    reveal_strlit(".dll");
    reveal_strlit(".a");
    reveal_strlit(".lib");
    text::law_begins_and_ends(".so"@, base);
    text::law_begins_and_ends(".dylib"@, base);
    text::law_begins_and_ends(".dll"@, base);
    text::law_begins_and_ends(".a"@, base);
    text::law_begins_and_ends(".lib"@, base);
    lemma_other_end(base, ".lib"@, ".a"@);
    lemma_other_end(base, ".so"@, ".a"@);
    lemma_other_end(base, ".dylib"@, ".a"@);
    lemma_other_end(base, ".dll"@, ".a"@);
    lemma_other_end(base, ".so"@, ".lib"@);
    assert((base + ".dylib"@).last() == 'b');
    assert(!text::ends(base + ".dylib"@, ".lib"@)) by {
        let s = base + ".dylib"@;
        if text::ends(s, ".lib"@) {
            assert(s.skip(s.len() - 4)[0] == s[s.len() - 4]);
        }
    }
    lemma_other_end(base, ".dll"@, ".lib"@);
    lemma_other_end(base, ".lib"@, ".dll"@);
    lemma_other_end(base, ".a"@, ".dll"@);
    lemma_other_end(base, ".a"@, ".dylib"@);
    lemma_other_end(base, ".a"@, ".so"@);
}

proof fn lemma_other_end(base: Seq<char>, end: Seq<char>, other: Seq<char>)
    requires
        end.len() > 0,
        other.len() > 0,
        end.last() != other.last(),
    ensures
        !text::ends(base + end, other),
{
    let s = base + end;
    assert(s.last() == end.last());
    if text::ends(s, other) {
        assert(s.skip(s.len() - other.len()).last() == s.last());
    }
}

/// Which library of a dependency is linked: for a static build the static one with
/// the least path, and none where there is none; else the shared one with the least
/// path, or a static one where there is no shared one.
pub proof fn law_choice_of_a_library(
    dir: Seq<char>,
    want_static: bool,
    files: Seq<(Seq<char>, Seq<char>)>,
    host: Host,
)
    ensures
        ({
            let statics = |f: (Seq<char>, Seq<char>)| names_static(f.1, host.msvc_abi);
            let shareds = |f: (Seq<char>, Seq<char>)| names_shared(f.1, host.os);
            let some = |test: spec_fn((Seq<char>, Seq<char>)) -> bool|
                exists|i: int| 0 <= i < files.len() && test(#[trigger] files[i]);
            let test = if want_static || !some(shareds) {
                statics
            } else {
                shareds
            };
            let got = chosen_lib(dir, want_static, libs_among(files, host));
            &&& got is Ok <==> some(test)
            &&& got matches Ok(p) ==> {
                &&& exists|i: int| 0 <= i < files.len() && (#[trigger] files[i]).0 == p && test(
                    files[i],
                )
                &&& forall|i: int|
                    0 <= i < files.len() && test(#[trigger] files[i]) ==> order::text_le(
                        p,
                        files[i].0,
                    )
            }
        }),
{
    lemma_least_named(files, |name: Seq<char>| names_static(name, host.msvc_abi));
    lemma_least_named(files, |name: Seq<char>| names_shared(name, host.os));
    let a = |name: Seq<char>| names_static(name, host.msvc_abi);
    let b = |name: Seq<char>| names_shared(name, host.os);
    let libs = libs_among(files, host);
    assert(libs.statik == order::least(paths_named(files, a)));
    assert(libs.shared == order::least(paths_named(files, b)));
}

proof fn lemma_least_named(files: Seq<(Seq<char>, Seq<char>)>, test: spec_fn(Seq<char>) -> bool)
    ensures
        order::least(paths_named(files, test)) is Some <==> exists|i: int|
            0 <= i < files.len() && test((#[trigger] files[i]).1),
        order::least(paths_named(files, test)) matches Some(p) ==> {
            &&& exists|i: int|
                0 <= i < files.len() && (#[trigger] files[i]).0 == p && test(files[i].1)
            &&& forall|i: int|
                0 <= i < files.len() && test((#[trigger] files[i]).1) ==> order::text_le(
                    p,
                    files[i].0,
                )
        },
{
    let v = paths_named(files, test);
    order::law_least(v);
    if v.len() > 0 {
        assert(v.contains(v[0]));
        lemma_paths_named(files, test, v[0]);
        lemma_paths_named(files, test, order::least(v)->0);
    }
    assert forall|i: int| 0 <= i < files.len() && test((#[trigger] files[i]).1) implies v.contains(
        files[i].0,
    ) by {
        lemma_paths_named(files, test, files[i].0);
    }
}

/// pkg-config is asked about the packages that a dependency names: for compile flags
/// always, for libraries where the project links them, and for static ones where it
/// links them statically.
pub proof fn law_pkg_config_is_asked(p: ProjectV, pkgs: Seq<Seq<char>>)
    ensures
        p.ty == ProjectType::Library && p.link == Linkage::Static ==> pkg_args(p, pkgs) == seq![
            "--cflags"@,
        ] + pkgs,
        p.link == Linkage::Dynamic ==> pkg_args(p, pkgs) == seq!["--cflags"@, "--libs"@] + pkgs,
        p.ty == ProjectType::Binary && p.link == Linkage::Static ==> pkg_args(p, pkgs) == seq![
            "--cflags"@,
            "--libs"@,
            "--static"@,
        ] + pkgs,
{
    assert(p.ty == ProjectType::Library && p.link == Linkage::Static ==> pkg_args(p, pkgs)
        =~= seq!["--cflags"@] + pkgs);
    assert(p.link == Linkage::Dynamic ==> pkg_args(p, pkgs) =~= seq!["--cflags"@, "--libs"@]
        + pkgs);
    assert(p.ty == ProjectType::Binary && p.link == Linkage::Static ==> pkg_args(p, pkgs) =~= seq![
        "--cflags"@,
        "--libs"@,
        "--static"@,
    ] + pkgs);
}

proof fn lemma_queries_in(
    p: ProjectV,
    deps: Seq<(Seq<char>, DependencyV)>,
    order: Seq<Seq<char>>,
    dir: Seq<char>,
    root: Seq<char>,
    scope: Seq<char>,
    inherited: Option<Seq<char>>,
    q: PkgQueryV,
)
    ensures
        queries_in(p, deps, order, dir, root, scope, inherited).contains(q) <==> exists|i: int|
            0 <= i < order.len() && is_query_of(
                q,
                p,
                #[trigger] order[i],
                names::lookup(deps, order[i])->0,
                dir,
                root,
                inherited,
                scope,
            ),
    decreases order.len(),
{
    if order.len() > 0 {
        let n = order.len() - 1;
        let front = order.drop_last();
        lemma_queries_in(p, deps, front, dir, root, scope, inherited, q);
        let a = queries_in(p, deps, front, dir, root, scope, inherited);
        let all = queries_in(p, deps, order, dir, root, scope, inherited);
        if all.contains(q) {
            let k = choose|k: int| 0 <= k < all.len() && all[k] == q;
            if k < a.len() {
                assert(a[k] == q);
                let i = choose|i: int|
                    0 <= i < front.len() && is_query_of(
                        q,
                        p,
                        #[trigger] front[i],
                        names::lookup(deps, front[i])->0,
                        dir,
                        root,
                        inherited,
                        scope,
                    );
                assert(order[i] == front[i]);
            } else {
                assert(order[n] == order.last());
            }
        }
        if exists|i: int|
            0 <= i < order.len() && is_query_of(
                q,
                p,
                #[trigger] order[i],
                names::lookup(deps, order[i])->0,
                dir,
                root,
                inherited,
                scope,
            ) {
            let i = choose|i: int|
                0 <= i < order.len() && is_query_of(
                    q,
                    p,
                    #[trigger] order[i],
                    names::lookup(deps, order[i])->0,
                    dir,
                    root,
                    inherited,
                    scope,
                );
            if i < n {
                assert(front[i] == order[i]);
                let k = choose|k: int| 0 <= k < a.len() && a[k] == q;
                assert(all[k] == q);
            } else {
                assert(all.last() == q);
                assert(all[all.len() - 1] == q);
            }
        }
    }
}

/// Whether a question for pkg-config is that of a dependency: it asks for the
/// packages it names, and looks first where the dependency was built.
pub open spec fn is_query_of(
    q: PkgQueryV,
    p: ProjectV,
    name: Seq<char>,
    d: DependencyV,
    dir: Seq<char>,
    root: Seq<char>,
    inherited: Option<Seq<char>>,
    scope: Seq<char>,
) -> bool {
    let built = paths::joined(source_dir(name, d, dir, root, scope), "build"@);
    &&& d.pkg_config is Some
    &&& q.name == name
    &&& q.args == pkg_args(p, d.pkg_config->0)
    &&& q.path == match inherited {
        Some(x) => built + ":"@ + x,
        None => built,
    }
}

/// Every dependency that names packages is asked about, and no other.
pub proof fn law_pkg_config_is_asked_for_each(
    p: ProjectV,
    dir: Seq<char>,
    root: Seq<char>,
    inherited: Option<Seq<char>>,
    q: PkgQueryV,
)
    ensures
        p.dependencies is None ==> pkg_queries(p, dir, root, inherited).len() == 0,
        p.dependencies matches Some(deps) ==> (pkg_queries(p, dir, root, inherited).contains(q)
            <==> names::holds(deps, q.name) && is_query_of(
            q,
            p,
            q.name,
            names::lookup(deps, q.name)->0,
            dir,
            root,
            inherited,
            scope_from(paths::stripped(dir, root)),
        )),
{
    if let Some(deps) = p.dependencies {
        let order = order::sorted(names::keys(deps));
        let scope = scope_from(paths::stripped(dir, root));
        order::law_sorted(names::keys(deps));
        lemma_queries_in(p, deps, order, dir, root, scope, inherited, q);
        names::lemma_holds(deps, q.name);
        if pkg_queries(p, dir, root, inherited).contains(q) {
            let i = choose|i: int|
                0 <= i < order.len() && is_query_of(
                    q,
                    p,
                    #[trigger] order[i],
                    names::lookup(deps, order[i])->0,
                    dir,
                    root,
                    inherited,
                    scope,
                );
            assert(order.contains(order[i]));
        }
        if names::holds(deps, q.name) {
            assert(order.contains(q.name));
            let i = choose|i: int| 0 <= i < order.len() && order[i] == q.name;
            assert(order[i] == q.name);
        }
    }
}

/// What pkg-config answers reaches the compiler and the linker: the tokens of one
/// answer follow those of the one before, each on its side.
pub proof fn law_answers_are_used(answers: Seq<Seq<char>>, last: Seq<char>)
    ensures
        ({
            let toks = text::white_words(last);
            let all = answers.push(last);
            &&& answered_cflags(all) == answered_cflags(answers) + toks.filter(
                |t: Seq<char>| !links(t),
            )
            &&& answered_libs(all) == answered_libs(answers) + toks.filter(
                |t: Seq<char>| links(t),
            )
            &&& answered_cflags(Seq::empty()).len() == 0
            &&& answered_libs(Seq::empty()).len() == 0
        }),
{
    assert(answers.push(last).drop_last() =~= answers);
}

/// What the linker gets of pkg-config's tokens: libraries, where to look for them,
/// what is passed to it raw, threads, and library files; everything else is for the
/// compiler.
pub proof fn law_link_tokens(t: Seq<char>)
    ensures
        links("-l"@ + t),
        links("-L"@ + t),
        links("-Wl,"@ + t),
        links("-pthread"@),
        links(t + ".a"@),
        links(t + ".so"@),
        links(t + ".dylib"@),
        links(t + ".lib"@),
        links(t + ".dll"@),
        t.len() > 2 && t[0] == '-' && (t[1] == 'I' || t[1] == 'D' || t[1] == 'f') && t.last() != 'a'
            && t.last() != 'o' && t.last() != 'b' && t.last() != 'l' ==> !links(t),
{
    reveal_strlit("-l");
    reveal_strlit("-L");
    reveal_strlit("-Wl,");
    reveal_strlit("-pthread");
    reveal_strlit(".a");
    reveal_strlit(".so");
    reveal_strlit(".dylib");
    reveal_strlit(".lib");
    reveal_strlit(".dll");
    text::law_begins_and_ends("-l"@, t);
    text::law_begins_and_ends("-L"@, t);
    text::law_begins_and_ends("-Wl,"@, t);
    text::law_begins_and_ends(".a"@, t);
    text::law_begins_and_ends(".so"@, t);
    text::law_begins_and_ends(".dylib"@, t);
    text::law_begins_and_ends(".lib"@, t);
    text::law_begins_and_ends(".dll"@, t);
    if t.len() > 2 && t[0] == '-' && (t[1] == 'I' || t[1] == 'D' || t[1] == 'f') && t.last() != 'a'
        && t.last() != 'o' && t.last() != 'b' && t.last() != 'l' {
        assert("-l"@[1] == 'l' && "-L"@[1] == 'L' && "-Wl,"@[1] == 'W' && "-pthread"@[1] == 'p');
        if text::begins(t, "-l"@) {
            assert(t.take(2)[1] == t[1]);
        }
        if text::begins(t, "-L"@) {
            assert(t.take(2)[1] == t[1]);
        }
        if text::begins(t, "-Wl,"@) {
            assert(t.take(4)[1] == t[1]);
        }
        let none = Seq::<char>::empty();
        assert(none + t =~= t);
        lemma_other_end(none, t, ".a"@);
        lemma_other_end(none, t, ".so"@);
        lemma_other_end(none, t, ".dylib"@);
        lemma_other_end(none, t, ".lib"@);
        lemma_other_end(none, t, ".dll"@);
    }
}

/// A dependency that conjure builds can be linked exactly where it is a library, and
/// not a shared one of a project that links statically.
pub proof fn law_what_can_be_linked(parent: ProjectV, child: ProjectV, name: Seq<char>)
    ensures
        unlinkable(parent, child, name) is None <==> child.ty == ProjectType::Library && !(
        parent.link == Linkage::Static && child.link == Linkage::Dynamic),
{
}

/// A project is built under the profile that is asked for exactly where it defines
/// it, and as it is written otherwise.
pub proof fn law_profile_that_is_built(p: ProjectV, name: Seq<char>)
    ensures
        profile_built(p, None) == "default"@,
        effective_under(p, None) == p,
        p.profiles is Some && names::holds(p.profiles->0, name) ==> profile_built(p, Some(name))
            == name && effective_under(p, Some(name)) == proj_parse::effective(
            p,
            names::lookup(p.profiles->0, name),
        ),
        !(p.profiles is Some && names::holds(p.profiles->0, name)) ==> profile_built(p, Some(name))
            == "default"@ && effective_under(p, Some(name)) == p,
{
}

/// The key of a local dependency shows its sources: two keys are the same only where
/// the trees are, or, for what conjure builds, where the builds have the same inputs.
pub proof fn law_local_keys_show_sources(
    system: BuildSystemV,
    a: Seq<(Seq<char>, u64)>,
    b: Seq<(Seq<char>, u64)>,
    child: ProjectV,
    profile: Seq<char>,
    commits: Seq<Seq<char>>,
    scan: ScanV,
    other_commits: Seq<Seq<char>>,
    other_scan: ScanV,
)
    requires
        effective_under(child, Some(profile)).compile is Some,
        local_key(system, a, child, profile, commits, scan) == local_key(
            system,
            b,
            child,
            profile,
            other_commits,
            other_scan,
        ),
    ensures
        !(system is Conjure) ==> a.to_multiset() == b.to_multiset(),
        system is Conjure ==> scan.sources.to_multiset() == other_scan.sources.to_multiset()
            && commits.to_multiset() == other_commits.to_multiset(),
{
    if system is Conjure {
        let p = effective_under(child, Some(profile));
        let built = profile_built(child, Some(profile));
        fingerprint::law_fingerprint_shows_inputs(
            p,
            built,
            commits,
            Seq::empty(),
            scan,
            p,
            built,
            other_commits,
            Seq::empty(),
            other_scan,
        );
    } else {
        fingerprint::law_dir_key_shows_files(a, b);
    }
}

/// After jobs were done, every library that was built is found in the cache under the
/// key it was built from; what was cached already is found as before, and other scopes
/// are left alone.
pub proof fn law_built_libraries_are_cached(
    cache: Seq<(Seq<char>, Seq<(Seq<char>, CachedDepV)>)>,
    scope: Seq<char>,
    jobs: Seq<(Seq<char>, DepWorkV)>,
    built: Seq<Seq<char>>,
    n: int,
    k: int,
    other: Seq<char>,
    key: Seq<char>,
)
    requires
        0 <= k < n <= jobs.len(),
        forall|i: int, j: int|
            0 <= i < j < jobs.len() ==> (#[trigger] jobs[i]).0 != (#[trigger] jobs[j]).0,
    ensures
        ({
            let after = cache_with(cache, scope, jobs, built, n);
            let found = dep_cache::library_for(after, scope, jobs[k].0, key);
            &&& jobs[k].1 matches DepWorkV::Local { dep_dir: _, key: from } ==> from == key
                ==> found == Some(built[k])
            &&& jobs[k].1 matches DepWorkV::Remote { dep_dir: _, key: from } ==> from == key
                ==> found == Some(built[k])
            &&& jobs[k].1 is Cached ==> found == dep_cache::library_for(
                cache,
                scope,
                jobs[k].0,
                key,
            )
            &&& other != scope ==> dep_cache::library_for(after, other, jobs[k].0, key)
                == dep_cache::library_for(cache, other, jobs[k].0, key)
        }),
{
    lemma_cached_by_jobs(cache, scope, jobs, built, n, k, other, key);
}

proof fn lemma_cached_by_jobs(
    cache: Seq<(Seq<char>, Seq<(Seq<char>, CachedDepV)>)>,
    scope: Seq<char>,
    jobs: Seq<(Seq<char>, DepWorkV)>,
    built: Seq<Seq<char>>,
    n: int,
    k: int,
    other: Seq<char>,
    key: Seq<char>,
)
    requires
        0 <= n <= jobs.len(),
        0 <= k < jobs.len(),
        forall|i: int, j: int|
            0 <= i < j < jobs.len() ==> (#[trigger] jobs[i]).0 != (#[trigger] jobs[j]).0,
    ensures
        ({
            let after = cache_with(cache, scope, jobs, built, n);
            let found = dep_cache::library_for(after, scope, jobs[k].0, key);
            &&& k < n ==> (jobs[k].1 matches DepWorkV::Local { dep_dir: _, key: from } ==> from == key
                ==> found == Some(built[k]))
            &&& k < n ==> (jobs[k].1 matches DepWorkV::Remote { dep_dir: _, key: from } ==> from
                == key ==> found == Some(built[k]))
            &&& k >= n || jobs[k].1 is Cached ==> found == dep_cache::library_for(
                cache,
                scope,
                jobs[k].0,
                key,
            )
            &&& other != scope ==> dep_cache::library_for(after, other, jobs[k].0, key)
                == dep_cache::library_for(cache, other, jobs[k].0, key)
        }),
    decreases n,
{
    if n > 0 {
        lemma_cached_by_jobs(cache, scope, jobs, built, n - 1, k, other, key);
        let before = cache_with(cache, scope, jobs, built, n - 1);
        let job = jobs[n - 1];
        let lib = built[n - 1];
        let from = match job.1 {
            DepWorkV::Cached(c) => c,
            DepWorkV::Local { dep_dir: _, key } => key,
            DepWorkV::Remote { dep_dir: _, key } => key,
        };
        let entry = CachedDepV { key: from, lib };
        if k != n - 1 {
            assert(jobs[k].0 != job.0);
            dep_cache::law_insert_leaves_the_rest(
                before,
                scope,
                job.0,
                entry,
                scope,
                jobs[k].0,
                key,
            );
        } else {
            dep_cache::law_hit_after_insert(before, scope, job.0, from, lib, key);
        }
        if other != scope {
            dep_cache::law_insert_leaves_the_rest(
                before,
                scope,
                job.0,
                entry,
                other,
                jobs[k].0,
                key,
            );
        }
    }
}

/// The status line of a build names what is built, how, where, and on how many
/// threads; a recipe or a command of one's own takes no number of threads.
pub proof fn law_builds_are_announced(
    dir: Seq<char>,
    target: Seq<char>,
    command: Seq<char>,
    threads: nat,
)
    ensures
        build_headline(dir, BuildSystemV::CMake(None), threads) == "Building "@ + dir
            + " [cmake] using "@ + text::decimal(threads) + " threads"@,
        build_headline(dir, BuildSystemV::CMake(Some(target)), threads) == "Building "@ + target
            + " [cmake] ["@ + dir + "] using "@ + text::decimal(threads) + " threads"@,
        build_headline(dir, BuildSystemV::Make(Some(target)), threads) == "Building "@ + target
            + " [make] ["@ + dir + "] using "@ + text::decimal(threads) + " threads"@,
        build_headline(dir, BuildSystemV::Meson(Some(target)), threads) == "Building "@ + target
            + " [meson] ["@ + dir + "] using "@ + text::decimal(threads) + " threads"@,
        build_headline(dir, BuildSystemV::Ninja(Some(target)), threads) == "Building "@ + target
            + " [ninja] ["@ + dir + "] using "@ + text::decimal(threads) + " threads"@,
        build_headline(dir, BuildSystemV::Xmake(Some(target)), threads) == "Building "@ + target
            + " [xmake] ["@ + dir + "] using "@ + text::decimal(threads) + " threads"@,
        build_headline(dir, BuildSystemV::Autotools(Some(target)), threads) == "Building "@ + target
            + " [autotools] ["@ + dir + "] using "@ + text::decimal(threads) + " threads"@,
        build_headline(dir, BuildSystemV::Conjure(Some(target)), threads) == "Building "@ + target
            + " [conjure] ["@ + dir + "] using "@ + text::decimal(threads) + " threads"@,
        build_headline(dir, BuildSystemV::Just(target), threads) == "Building "@ + target
            + " [just] ["@ + dir + "]"@,
        text::white_words(command).len() > 0 ==> build_headline(
            dir,
            BuildSystemV::Custom(command),
            threads,
        ) == "Building "@ + dir + " [custom ("@ + text::white_words(command)[0] + ")]"@,
{
    reveal_strlit(" [");
    reveal_strlit("] [");
    reveal_strlit("] using ");
    reveal_strlit("]");
    reveal_strlit("cmake");
    reveal_strlit("make");
    reveal_strlit("meson");
    reveal_strlit("ninja");
    reveal_strlit("xmake");
    reveal_strlit("autotools");
    reveal_strlit("conjure");
    reveal_strlit("just");
    reveal_strlit("custom (");
    reveal_strlit(")");
    reveal_strlit(" [cmake] using ");
    reveal_strlit(" [cmake] [");
    reveal_strlit(" [make] [");
    reveal_strlit(" [meson] [");
    reveal_strlit(" [ninja] [");
    reveal_strlit(" [xmake] [");
    reveal_strlit(" [autotools] [");
    reveal_strlit(" [conjure] [");
    reveal_strlit(" [just] [");
    reveal_strlit(" [custom (");
    reveal_strlit(")]");
    assert(" ["@ + "cmake"@ + "] using "@ =~= " [cmake] using "@);
    assert(" ["@ + "cmake"@ + "] ["@ =~= " [cmake] ["@);
    assert(" ["@ + "make"@ + "] ["@ =~= " [make] ["@);
    assert(" ["@ + "meson"@ + "] ["@ =~= " [meson] ["@);
    assert(" ["@ + "ninja"@ + "] ["@ =~= " [ninja] ["@);
    assert(" ["@ + "xmake"@ + "] ["@ =~= " [xmake] ["@);
    assert(" ["@ + "autotools"@ + "] ["@ =~= " [autotools] ["@);
    assert(" ["@ + "conjure"@ + "] ["@ =~= " [conjure] ["@);
    assert(" ["@ + "just"@ + "] ["@ =~= " [just] ["@);
    assert(" ["@ + "custom ("@ =~= " [custom ("@);
    assert(")"@ + "]"@ =~= ")]"@);
    lemma_headline_words(target, "cmake"@, "] ["@, " [cmake] ["@);
    lemma_headline_words(dir, "cmake"@, "] using "@, " [cmake] using "@);
    lemma_headline_words(target, "make"@, "] ["@, " [make] ["@);
    lemma_headline_words(target, "meson"@, "] ["@, " [meson] ["@);
    lemma_headline_words(target, "ninja"@, "] ["@, " [ninja] ["@);
    lemma_headline_words(target, "xmake"@, "] ["@, " [xmake] ["@);
    lemma_headline_words(target, "autotools"@, "] ["@, " [autotools] ["@);
    lemma_headline_words(target, "conjure"@, "] ["@, " [conjure] ["@);
    lemma_headline_words(target, "just"@, "] ["@, " [just] ["@);
    let first = text::white_words(command)[0];
    let head = "Building "@ + dir;
    assert(head + " ["@ + ("custom ("@ + first + ")"@) + "]"@ =~= head + (" ["@ + "custom ("@)
        + first + (")"@ + "]"@));
}

proof fn lemma_headline_words(
    what: Seq<char>,
    name: Seq<char>,
    behind: Seq<char>,
    whole: Seq<char>,
)
    requires
        " ["@ + name + behind == whole,
    ensures
        "Building "@ + what + " ["@ + name + behind == "Building "@ + what + whole,
{
    assert("Building "@ + what + " ["@ + name + behind =~= "Building "@ + what + (" ["@ + name
        + behind));
}

/// What is said where pkg-config cannot be run, or does not know a package: which
/// dependency asked for which packages, and what came back.
pub proof fn law_pkg_config_failures(name: Seq<char>, pkgs: Seq<Seq<char>>, said: Seq<char>)
    ensures
        text::begins(
            pkg_unasked(name, pkgs, said).message,
            "Failed to run pkg-config for dependency `"@ + name + "` ("@,
        ),
        text::begins(
            pkg_unknown(name, pkgs, said).message,
            "pkg-config failed for dependency `"@ + name + "` ("@,
        ),
        text::ends(
            pkg_unasked(name, pkgs, said).message,
            text::debug_list(pkgs) + "): "@ + said,
        ),
        text::ends(
            pkg_unknown(name, pkgs, said).message,
            text::debug_list(pkgs) + "): "@ + said,
        ),
        pkg_unasked(name, pkgs, said).help is Some,
        pkg_unknown(name, pkgs, said).help == Some(
            "Make sure `"@ + text::debug_list(pkgs) + "` is installed and on PKG_CONFIG_PATH"@,
        ),
{
    let a = "Failed to run pkg-config for dependency `"@ + name + "` ("@;
    let b = "pkg-config failed for dependency `"@ + name + "` ("@;
    let t = text::debug_list(pkgs) + "): "@ + said;
    assert(pkg_unasked(name, pkgs, said).message =~= a + t);
    assert(pkg_unknown(name, pkgs, said).message =~= b + t);
    text::law_begins_and_ends(a, t);
    text::law_begins_and_ends(b, t);
    text::law_begins_and_ends(t, a);
    text::law_begins_and_ends(t, b);
}

/// What is said where a dependency cannot be linked, fetched or built: which one it
/// is, and what is wrong with it.
pub proof fn law_dependencies_are_named_in_reports(
    parent: ProjectV,
    child: ProjectV,
    d: DependencyV,
    name: Seq<char>,
    dir: Seq<char>,
    lib: Seq<char>,
)
    ensures
        child.ty != ProjectType::Library ==> unlinkable(parent, child, name) is Some && unlinkable(
            parent,
            child,
            name,
        )->0.message == "dependency `"@ + name
            + "` is a binary conjure project, which can't be linked"@,
        child.ty == ProjectType::Library && parent.link == Linkage::Static && child.link
            == Linkage::Dynamic ==> unlinkable(parent, child, name) is Some && unlinkable(
            parent,
            child,
            name,
        )->0.message == "dependency `"@ + name
            + "` is shared but this project links statically"@,
        d.remote is None ==> clone_url(name, d) == Err::<Seq<char>, Seq<char>>(
            "Dependency `"@ + name + "` has no remote"@,
        ),
        parent.compile is None ==> manifestless(parent, d, name, dir) == Err::<
            ProjectV,
            Seq<char>,
        >("Parent project has no compile section to inherit"@),
        chosen_lib(dir, true, LibsV { statik: None, shared: None }) matches Err(f) ==> f.message
            == "No library found in "@ + dir,
        chosen_lib(dir, false, LibsV { statik: None, shared: None }) matches Err(f) ==> f.message
            == "No library found in "@ + dir,
        chosen_lib(dir, true, LibsV { statik: None, shared: Some(lib) }) matches Err(f)
            ==> f.message == "Static build requested but `"@ + dir
            + "` only produced a shared library"@,
        misplaced(dir).message == "Conjure dependency reached the external build path in `"@ + dir
            + "`"@,
        text::begins(
            pkg_unasked(name, Seq::empty(), dir).help->0,
            "Install pkg-config, or remove the `pkg_config` field from dependency `"@ + name,
        ),
{
    let a = "Install pkg-config, or remove the `pkg_config` field from dependency `"@ + name;
    text::law_begins_and_ends(a, "`"@);
}

} // verus!
