//! The top-level build decisions for one project.
//!
//! A build checks the fingerprint, builds the dependencies, compiles, links, and
//! then records the fingerprint, so that an unchanged tree is left alone the next
//! time. What is compiled is decided per object, from the files each object was
//! made from. The multi-project layer builds the root project and then every
//! sibling, all sharing one invocation root, so their dependency caches and
//! artifact trees are scoped together.
//!
//! Sibling projects are separate `conjure.kdl` files built in the same invocation;
//! they are not the same as `build conjure` dependencies.
use vstd::prelude::*;
use crate::compile;
use crate::compile::{CompileEntry, CompileEntryV};
use crate::deps;
use crate::diag;
use crate::diag::{Fault, FaultV};
use crate::fingerprint;
use crate::fingerprint::SnapshotV;
use crate::incremental;
use crate::incremental::DepGraph;
use crate::names;
use crate::names::NameMap;
use crate::order;
use crate::pack;
use crate::paths;
use crate::proj_parse;
use crate::proj_parse::{
    BuildSystem, BuildSystemV, Compile, CompileV, Dependency, DependencyV, Linkage, Output, OutputV,
    Profile, ProfileV, Project, ProjectType, ProjectV, Test, TestV,
};
use crate::text;

verus! {

// ---------------------------------------------------------------------------
// One project
// ---------------------------------------------------------------------------

/// Everything one project build needs: the project, where it lives, the shared
/// invocation root, the active profile, and whether to ignore the state file.
pub struct BuildCtx<'a> {
    pub project: &'a Project,
    pub dir: String,
    pub root: String,
    /// Selected profile name, resolved against the project's own profiles. A name
    /// the project does not define falls back to default.
    pub profile: Option<&'a str>,
    pub record_state: bool,
    pub force: bool,
    pub threads: Option<usize>,
}

/// The model of a [`BuildCtx`].
pub struct BuildCtxV {
    pub project: ProjectV,
    pub dir: Seq<char>,
    pub root: Seq<char>,
    pub profile: Option<Seq<char>>,
    pub record_state: bool,
    pub force: bool,
    pub threads: Option<usize>,
}

impl<'a> View for BuildCtx<'a> {
    type V = BuildCtxV;

    open spec fn view(&self) -> BuildCtxV {
        BuildCtxV {
            project: self.project@,
            dir: self.dir@,
            root: self.root@,
            profile: text::opt(self.profile),
            record_state: self.record_state,
            force: self.force,
            threads: self.threads,
        }
    }
}

/// What is said of a profile that the project does not define.
pub open spec fn fallback_note(c: BuildCtxV) -> Option<Seq<char>> {
    match c.profile {
        Some(n) => if proj_parse::profile_of(c.project, n) is None {
            Some(c.project.name + ": no `"@ + n + "` profile; building default"@)
        } else {
            None
        },
        None => None,
    }
}

/// Compile settings with the number of threads that was asked for.
pub open spec fn threaded(c: Option<CompileV>, threads: Option<usize>) -> Option<CompileV> {
    match (c, threads) {
        (Some(x), Some(_)) => Some(CompileV { threads, ..x }),
        _ => c,
    }
}

/// The project that is built: the profile folded in, and the threads of the
/// command line in place of those of the manifest.
pub open spec fn project_built(c: BuildCtxV) -> ProjectV {
    let p = deps::effective_under(c.project, c.profile);
    ProjectV { compile: threaded(p.compile, c.threads), ..p }
}

impl<'a> BuildCtx<'a> {
    /// The named profile if this project defines it, else `None` (default build).
    pub fn resolve(&self) -> (out: Option<(&'a str, &'a Profile)>)
        ensures
            match out {
                Some((n, p)) => self@.profile == Some(n@) && proj_parse::profile_of(
                    self@.project,
                    n@,
                ) == Some(p@),
                None => self@.profile is None || proj_parse::profile_of(
                    self@.project,
                    self@.profile->0,
                ) is None,
            },
    {
        match self.profile {
            Some(name) => self.project.profile(name),
            None => None,
        }
    }

    /// The profile actually built: the named one if defined, else `default`.
    pub fn profile_name(&self) -> (out: &str)
        ensures
            out@ == deps::profile_built(self@.project, self@.profile),
    {
        match self.resolve() {
            Some((name, _)) => name,
            None => "default",
        }
    }

    /// What to say where the profile falls back to default.
    pub fn fallback_note(&self) -> (out: Option<String>)
        ensures
            text::opt(out) == fallback_note(self@),
    {
        match self.profile {
            Some(name) => match self.resolve() {
                Some(_) => None,
                None => {
                    let head = text::cat3(self.project.name.as_str(), ": no `", name);
                    Some(text::cat(head.as_str(), "` profile; building default"))
                },
            },
            None => None,
        }
    }

    /// The project that is built.
    pub fn effective(&self) -> (out: Project)
        ensures
            out@ == project_built(self@),
    {
        let mut project = deps::under_profile(self.project, self.profile);
        if self.threads.is_some() {
            let mut compile = None;
            std::mem::swap(&mut compile, &mut project.compile);
            project.compile = match compile {
                Some(c) => Some(Compile { threads: self.threads, ..c }),
                None => None,
            };
        }
        project
    }
}

/// How a build begins.
#[derive(Clone, Copy, Debug, PartialEq, Eq, Structural)]
pub enum Start {
    /// Nothing to do.
    UpToDate,
    /// Build. `resolve_again` says that pkg-config could not be asked before the
    /// dependencies were built: it is asked again afterwards, and the fingerprint
    /// is made anew with what it answers.
    Build { resolve_again: bool },
}

/// Whether a project's outputs are current: the state of the last build is the
/// present one, and the artifact is still there.
pub open spec fn is_current(
    c: BuildCtxV,
    pkg_known: bool,
    previous: Seq<char>,
    current: Seq<char>,
    artifact_there: bool,
) -> bool {
    c.record_state && pkg_known && !c.force && previous == current && artifact_there
}

/// Decide how a build begins, from the fingerprint of the last build and the
/// present one. `pkg_known` says whether pkg-config could be asked already.
pub fn build_ctx(
    ctx: &BuildCtx,
    pkg_known: bool,
    previous: &str,
    current: &str,
    artifact_there: bool,
) -> (out: Start)
    ensures
        out == if is_current(ctx@, pkg_known, previous@, current@, artifact_there) {
            Start::UpToDate
        } else {
            Start::Build { resolve_again: !pkg_known }
        },
{
    if ctx.record_state && pkg_known && !ctx.force && text::same(previous, current)
        && artifact_there {
        Start::UpToDate
    } else {
        Start::Build { resolve_again: !pkg_known }
    }
}

// ---------------------------------------------------------------------------
// What to recompile
// ---------------------------------------------------------------------------

/// Which objects to recompile and whether to relink, from the previous
/// fingerprint.
#[derive(Debug)]
pub struct Plan {
    pub compile: Vec<usize>,
    pub link: bool,
}

/// The model of a [`Plan`].
pub struct PlanV {
    pub compile: Seq<usize>,
    pub link: bool,
}

impl View for Plan {
    type V = PlanV;

    open spec fn view(&self) -> PlanV {
        PlanV { compile: self.compile@, link: self.link }
    }
}

/// The files whose hash is not what it was, or that were not there.
pub open spec fn renewed(
    old_files: Seq<(Seq<char>, Seq<char>)>,
    new_files: Seq<(Seq<char>, Seq<char>)>,
) -> Seq<Seq<char>>
    decreases new_files.len(),
{
    if new_files.len() == 0 {
        Seq::empty()
    } else {
        let front = renewed(old_files, new_files.drop_last());
        if names::lookup(old_files, new_files.last().0) == Some(new_files.last().1) {
            front
        } else {
            front.push(new_files.last().0)
        }
    }
}

/// The files that are no longer there.
pub open spec fn departed(
    old_files: Seq<(Seq<char>, Seq<char>)>,
    new_files: Seq<(Seq<char>, Seq<char>)>,
) -> Seq<Seq<char>>
    decreases old_files.len(),
{
    if old_files.len() == 0 {
        Seq::empty()
    } else {
        let front = departed(old_files.drop_last(), new_files);
        if names::holds(new_files, old_files.last().0) {
            front
        } else {
            front.push(old_files.last().0)
        }
    }
}

/// The files that changed between two fingerprints.
pub open spec fn changed_files(old_state: SnapshotV, new_state: SnapshotV) -> Seq<Seq<char>> {
    renewed(old_state.files, new_state.files) + departed(old_state.files, new_state.files)
}

/// Whether some file of a list is among the changed ones.
pub open spec fn any_changed(files: Seq<Seq<char>>, changed: Seq<Seq<char>>) -> bool {
    exists|i: int| 0 <= i < files.len() && paths::has_path(changed, #[trigger] files[i])
}

/// Whether an object has to be made again: it is not there, its source changed, a
/// file it was made from changed, or it is not on record what it was made from.
pub open spec fn stale(
    changed: Seq<Seq<char>>,
    graph: Seq<(Seq<char>, Seq<Seq<char>>)>,
    entry: (Seq<char>, CompileEntryV),
    is_there: bool,
) -> bool {
    ||| !is_there
    ||| paths::has_path(changed, entry.1.file)
    ||| match incremental::recorded(graph, entry.0) {
        Some(files) => any_changed(files, changed),
        None => true,
    }
}

/// The stale ones of the first `n` objects.
pub open spec fn stale_among(
    changed: Seq<Seq<char>>,
    graph: Seq<(Seq<char>, Seq<Seq<char>>)>,
    entries: Seq<(Seq<char>, CompileEntryV)>,
    there: Seq<bool>,
    n: int,
) -> Seq<usize>
    decreases n,
{
    if n <= 0 {
        Seq::empty()
    } else {
        let front = stale_among(changed, graph, entries, there, n - 1);
        if stale(changed, graph, entries[n - 1], there[n - 1]) {
            front.push((n - 1) as usize)
        } else {
            front
        }
    }
}

/// Every index below a bound.
pub open spec fn all_below(n: int) -> Seq<usize> {
    Seq::new(n as nat, |i: int| i as usize)
}

/// Whether every path of one list is in another.
pub open spec fn all_in(a: Seq<Seq<char>>, b: Seq<Seq<char>>) -> bool {
    forall|i: int| 0 <= i < a.len() ==> paths::has_path(b, #[trigger] a[i])
}

/// The objects of some entries.
pub open spec fn objects_in(entries: Seq<(Seq<char>, CompileEntryV)>) -> Seq<Seq<char>> {
    entries.map_values(|e: (Seq<char>, CompileEntryV)| e.0)
}

/// The plan of a build: everything where it is forced, where there was no build
/// before, or where anything but files changed; else the stale objects. The link
/// is redone where an object was, where the set of objects is another, or where
/// the artifact is gone.
pub open spec fn plan_from(
    previous: Seq<char>,
    current: Seq<char>,
    entries: Seq<(Seq<char>, CompileEntryV)>,
    there: Seq<bool>,
    graph: Seq<(Seq<char>, Seq<Seq<char>>)>,
    force: bool,
    artifact_there: bool,
) -> PlanV {
    if force || previous.len() == 0 {
        PlanV { compile: all_below(entries.len() as int), link: true }
    } else {
        let old_state = fingerprint::snapshot(previous);
        let new_state = fingerprint::snapshot(current);
        let base_changed = old_state.base != new_state.base;
        let compile = if base_changed {
            all_below(entries.len() as int)
        } else {
            stale_among(
                changed_files(old_state, new_state),
                graph,
                entries,
                there,
                entries.len() as int,
            )
        };
        PlanV {
            compile,
            link: compile.len() > 0 || base_changed || !(all_in(
                incremental::objects_of(graph),
                objects_in(entries),
            ) && all_in(objects_in(entries), incremental::objects_of(graph))) || !artifact_there,
        }
    }
}

fn same_texts(a: &[String], b: &[String]) -> (res: bool)
    ensures
        res == (text::texts(a@) == text::texts(b@)),
{
    let ghost x = text::texts(a@);
    let ghost y = text::texts(b@);
    if a.len() != b.len() {
        proof {
            assert(x.len() != y.len());
        }
        return false;
    }
    let mut i: usize = 0;
    while i < a.len()
        invariant
            i <= a@.len() == b@.len(),
            x == text::texts(a@),
            y == text::texts(b@),
            forall|j: int| 0 <= j < i ==> x[j] == y[j],
        decreases a@.len() - i,
    {
        proof {
            assert(x[i as int] == a@[i as int]@);
            assert(y[i as int] == b@[i as int]@);
        }
        if !text::same(a[i].as_str(), b[i].as_str()) {
            return false;
        }
        i += 1;
    }
    proof {
        assert(x =~= y);
    }
    true
}

fn changed_between(old_files: &NameMap<String>, new_files: &NameMap<String>) -> (out: Vec<String>)
    ensures
        text::texts(out@) == renewed(old_files@, new_files@) + departed(old_files@, new_files@),
{
    let ghost ov = old_files@;
    let ghost nv = new_files@;
    let mut out = text::none();
    let mut i: usize = 0;
    proof {
        assert(nv.take(0) =~= Seq::empty());
    }
    while i < new_files.len()
        invariant
            i <= nv.len(),
            ov == old_files@,
            nv == new_files@,
            text::texts(out@) == renewed(ov, nv.take(i as int)),
        decreases nv.len() - i,
    {
        proof {
            assert(nv.take(i + 1).drop_last() =~= nv.take(i as int));
            assert(nv.take(i + 1).last() == nv[i as int]);
        }
        let kept = match old_files.get(new_files.name_at(i)) {
            Some(h) => text::same(h.as_str(), new_files.value_at(i).as_str()),
            None => false,
        };
        if !kept {
            text::push_text(&mut out, new_files.name_at(i));
        }
        i += 1;
    }
    let ghost first = renewed(ov, nv);
    proof {
        assert(nv.take(i as int) =~= nv);
        assert(ov.take(0) =~= Seq::empty());
        assert(first + Seq::empty() =~= first);
    }
    let mut j: usize = 0;
    while j < old_files.len()
        invariant
            j <= ov.len(),
            ov == old_files@,
            nv == new_files@,
            text::texts(out@) == first + departed(ov.take(j as int), nv),
        decreases ov.len() - j,
    {
        proof {
            assert(ov.take(j + 1).drop_last() =~= ov.take(j as int));
            assert(ov.take(j + 1).last() == ov[j as int]);
        }
        let ghost gone = departed(ov.take(j as int), nv);
        if !new_files.contains_key(old_files.name_at(j)) {
            text::push_text(&mut out, old_files.name_at(j));
            proof {
                assert((first + gone).push(ov[j as int].0) =~= first + gone.push(ov[j as int].0));
            }
        }
        j += 1;
    }
    proof {
        assert(ov.take(j as int) =~= ov);
    }
    out
}

fn some_changed(files: &[String], changed: &[String]) -> (res: bool)
    ensures
        res == any_changed(text::texts(files@), text::texts(changed@)),
{
    let ghost fs = text::texts(files@);
    let ghost cs = text::texts(changed@);
    let mut i: usize = 0;
    while i < files.len()
        invariant
            i <= files@.len(),
            fs == text::texts(files@),
            cs == text::texts(changed@),
            forall|j: int| 0 <= j < i ==> !paths::has_path(cs, #[trigger] fs[j]),
        decreases files@.len() - i,
    {
        proof {
            assert(fs[i as int] == files@[i as int]@);
        }
        if paths::holds_path(changed, files[i].as_str()) {
            return true;
        }
        i += 1;
    }
    false
}

fn is_stale(changed: &[String], graph: &DepGraph, obj: &str, entry: &CompileEntry, is_there: bool) -> (res:
    bool)
    ensures
        res == stale(text::texts(changed@), graph@, (obj@, entry@), is_there),
{
    if !is_there || paths::holds_path(changed, entry.source()) {
        return true;
    }
    let at: usize = graph.position_of(obj);
    if at < graph.len() {
        some_changed(graph.files_at(at).as_slice(), changed)
    } else {
        true
    }
}

fn covers(a: &[String], b: &[String]) -> (res: bool)
    ensures
        res == all_in(text::texts(a@), text::texts(b@)),
{
    let ghost x = text::texts(a@);
    let ghost y = text::texts(b@);
    let mut i: usize = 0;
    while i < a.len()
        invariant
            i <= a@.len(),
            x == text::texts(a@),
            y == text::texts(b@),
            forall|j: int| 0 <= j < i ==> paths::has_path(y, #[trigger] x[j]),
        decreases a@.len() - i,
    {
        proof {
            assert(x[i as int] == a@[i as int]@);
        }
        if !paths::holds_path(b, a[i].as_str()) {
            return false;
        }
        i += 1;
    }
    true
}

/// The objects of some entries, in order.
pub fn objects_of_entries(entries: &Vec<(String, CompileEntry)>) -> (out: Vec<String>)
    ensures
        text::texts(out@) == objects_in(compile::entries_view(entries@)),
{
    let ghost want = objects_in(compile::entries_view(entries@));
    let mut out = text::none();
    let mut i: usize = 0;
    while i < entries.len()
        invariant
            i <= entries@.len(),
            want == objects_in(compile::entries_view(entries@)),
            text::texts(out@) == want.take(i as int),
        decreases entries@.len() - i,
    {
        text::push_text(&mut out, entries[i].0.as_str());
        i += 1;
        proof {
            assert(want[i - 1] == entries@[i - 1].0@);
            assert(want.take(i as int) =~= want.take(i - 1).push(want[i - 1]));
        }
    }
    proof {
        assert(want.take(i as int) =~= want);
    }
    out
}

fn recorded_objects(graph: &DepGraph) -> (out: Vec<String>)
    ensures
        text::texts(out@) == incremental::objects_of(graph@),
{
    let ghost want = incremental::objects_of(graph@);
    let mut out = text::none();
    let mut i: usize = 0;
    while i < graph.len()
        invariant
            i <= graph@.len(),
            want == incremental::objects_of(graph@),
            text::texts(out@) == want.take(i as int),
        decreases graph@.len() - i,
    {
        text::push_text(&mut out, graph.object(i));
        i += 1;
        proof {
            assert(want.take(i as int) =~= want.take(i - 1).push(want[i - 1]));
        }
    }
    proof {
        assert(want.take(i as int) =~= want);
    }
    out
}

fn every_index(n: usize) -> (out: Vec<usize>)
    ensures
        out@ == all_below(n as int),
{
    let mut out: Vec<usize> = Vec::new();
    let mut i: usize = 0;
    while i < n
        invariant
            i <= n,
            out@ == all_below(i as int),
        decreases n - i,
    {
        out.push(i);
        i += 1;
        proof {
            assert(out@ =~= all_below(i as int));
        }
    }
    out
}

/// Decide which objects to recompile and whether to relink.
///
/// `there` says of each entry whether its object exists. A change to anything but
/// a file (flags, profile, dependencies) invalidates every object; a changed file
/// invalidates the objects that were made from it, and those of which it is not on
/// record what they were made from.
pub fn plan_compile(
    previous: &str,
    current: &str,
    entries: &Vec<(String, CompileEntry)>,
    there: &[bool],
    graph: &DepGraph,
    force: bool,
    artifact_there: bool,
) -> (out: Plan)
    requires
        entries@.len() == there@.len(),
    ensures
        out@ == plan_from(
            previous@,
            current@,
            compile::entries_view(entries@),
            there@,
            graph@,
            force,
            artifact_there,
        ),
{
    let n: usize = entries.len();
    if force || text::same(previous, "") {
        proof {
            reveal_strlit("");
            assert(""@ =~= Seq::<char>::empty());
        }
        return Plan { compile: every_index(n), link: true };
    }
    proof {
        reveal_strlit("");
        assert(previous@.len() == 0 ==> previous@ =~= ""@);
    }
    let old_state = fingerprint::split(previous);
    let new_state = fingerprint::split(current);
    let base_changed = !same_texts(old_state.base.as_slice(), new_state.base.as_slice());
    let changed = changed_between(&old_state.files, &new_state.files);
    let ghost cv = text::texts(changed@);
    let ghost ev = compile::entries_view(entries@);
    let mut compile: Vec<usize> = Vec::new();
    if base_changed {
        compile = every_index(n);
    } else {
        let mut i: usize = 0;
        while i < n
            invariant
                i <= n == entries@.len(),
                n == there@.len(),
                cv == text::texts(changed@),
                ev == compile::entries_view(entries@),
                compile@ == stale_among(cv, graph@, ev, there@, i as int),
            decreases n - i,
        {
            proof {
                assert(ev[i as int] == (entries@[i as int].0@, entries@[i as int].1@));
            }
            if is_stale(
                changed.as_slice(),
                graph,
                entries[i].0.as_str(),
                &entries[i].1,
                there[i],
            ) {
                compile.push(i);
            }
            i += 1;
        }
    }
    let before = recorded_objects(graph);
    let now = objects_of_entries(entries);
    let same_objects = covers(before.as_slice(), now.as_slice()) && covers(
        now.as_slice(),
        before.as_slice(),
    );
    let link = compile.len() > 0 || base_changed || !same_objects || !artifact_there;
    Plan { compile, link }
}

proof fn lemma_stale_among(
    changed: Seq<Seq<char>>,
    graph: Seq<(Seq<char>, Seq<Seq<char>>)>,
    entries: Seq<(Seq<char>, CompileEntryV)>,
    there: Seq<bool>,
    n: int,
    i: int,
)
    requires
        0 <= i < entries.len() <= usize::MAX,
        0 <= n <= entries.len(),
    ensures
        stale_among(changed, graph, entries, there, n).contains(i as usize) <==> i < n && stale(
            changed,
            graph,
            entries[i],
            there[i],
        ),
    decreases n,
{
    if n > 0 {
        let front = stale_among(changed, graph, entries, there, n - 1);
        let s = stale_among(changed, graph, entries, there, n);
        lemma_stale_among(changed, graph, entries, there, n - 1, i);
        let last = (n - 1) as usize;
        if stale(changed, graph, entries[n - 1], there[n - 1]) {
            assert(s == front.push(last));
            if front.contains(i as usize) {
                let k = choose|k: int| 0 <= k < front.len() && front[k] == i as usize;
                assert(s[k] == i as usize);
            }
            if i == n - 1 {
                assert(s[s.len() - 1] == i as usize);
            }
            if s.contains(i as usize) {
                let k = choose|k: int| 0 <= k < s.len() && s[k] == i as usize;
                if k < front.len() {
                    assert(front[k] == i as usize);
                }
            }
        }
    }
}

/// A forced build, and the first build of a tree, compile every object and link.
pub proof fn law_forced_builds_do_everything(
    previous: Seq<char>,
    current: Seq<char>,
    entries: Seq<(Seq<char>, CompileEntryV)>,
    there: Seq<bool>,
    graph: Seq<(Seq<char>, Seq<Seq<char>>)>,
    force: bool,
    artifact_there: bool,
)
    requires
        force || previous.len() == 0,
    ensures
        ({
            let plan = plan_from(previous, current, entries, there, graph, force, artifact_there);
            plan.link && plan.compile == all_below(entries.len() as int)
        }),
{
}

/// Only changed sources, and the objects that include a changed header, recompile:
/// where nothing but files changed, an object that is there and on record is
/// compiled again exactly when its source or a file it was made from changed.
pub proof fn law_only_dependents_recompile(
    previous: Seq<char>,
    current: Seq<char>,
    entries: Seq<(Seq<char>, CompileEntryV)>,
    there: Seq<bool>,
    graph: Seq<(Seq<char>, Seq<Seq<char>>)>,
    artifact_there: bool,
    i: int,
)
    requires
        previous.len() > 0,
        fingerprint::snapshot(previous).base == fingerprint::snapshot(current).base,
        0 <= i < entries.len() <= usize::MAX,
        there[i],
        incremental::recorded(graph, entries[i].0) is Some,
    ensures
        ({
            let plan = plan_from(previous, current, entries, there, graph, false, artifact_there);
            let changed = changed_files(
                fingerprint::snapshot(previous),
                fingerprint::snapshot(current),
            );
            plan.compile.contains(i as usize) <==> paths::has_path(changed, entries[i].1.file)
                || any_changed(incremental::recorded(graph, entries[i].0)->0, changed)
        }),
{
    let changed = changed_files(fingerprint::snapshot(previous), fingerprint::snapshot(current));
    lemma_stale_among(changed, graph, entries, there, entries.len() as int, i);
}

proof fn lemma_renewed(
    old_files: Seq<(Seq<char>, Seq<char>)>,
    new_files: Seq<(Seq<char>, Seq<char>)>,
    i: int,
)
    requires
        0 <= i < new_files.len(),
        names::lookup(old_files, new_files[i].0) != Some(new_files[i].1),
    ensures
        renewed(old_files, new_files).contains(new_files[i].0),
    decreases new_files.len(),
{
    let front = new_files.drop_last();
    let all = renewed(old_files, new_files);
    if i < front.len() {
        lemma_renewed(old_files, front, i);
        let some = renewed(old_files, front);
        let k = choose|k: int| 0 <= k < some.len() && some[k] == front[i].0;
        assert(all[k] == new_files[i].0);
    } else {
        assert(all.last() == new_files[i].0);
        assert(all[all.len() - 1] == new_files[i].0);
    }
}

proof fn lemma_departed(
    old_files: Seq<(Seq<char>, Seq<char>)>,
    new_files: Seq<(Seq<char>, Seq<char>)>,
    i: int,
)
    requires
        0 <= i < old_files.len(),
        !names::holds(new_files, old_files[i].0),
    ensures
        departed(old_files, new_files).contains(old_files[i].0),
    decreases old_files.len(),
{
    let front = old_files.drop_last();
    let all = departed(old_files, new_files);
    if i < front.len() {
        lemma_departed(front, new_files, i);
        let some = departed(front, new_files);
        let k = choose|k: int| 0 <= k < some.len() && some[k] == front[i].0;
        assert(all[k] == old_files[i].0);
    } else {
        assert(all[all.len() - 1] == old_files[i].0);
    }
}

/// A file is among the changed ones whenever its hash is another, or it came or
/// went.
pub proof fn law_changed_files(old_state: SnapshotV, new_state: SnapshotV, path: Seq<char>)
    requires
        names::lookup(old_state.files, path) != names::lookup(new_state.files, path),
    ensures
        changed_files(old_state, new_state).contains(path),
{
    let a = old_state.files;
    let b = new_state.files;
    let first = renewed(a, b);
    let second = departed(a, b);
    let all = changed_files(old_state, new_state);
    names::lemma_position(a, path);
    names::lemma_position(b, path);
    if names::holds(b, path) {
        lemma_renewed(a, b, names::position(b, path));
        let k = choose|k: int| 0 <= k < first.len() && first[k] == path;
        assert(all[k] == path);
    } else {
        lemma_departed(a, b, names::position(a, path));
        let k = choose|k: int| 0 <= k < second.len() && second[k] == path;
        assert(all[first.len() + k] == path);
    }
}

/// Where the hash of a source or a header is another than at the last build, every
/// object that was made from it is compiled again.
pub proof fn law_changed_header_recompiles(
    p: ProjectV,
    profile: Seq<char>,
    commits: Seq<Seq<char>>,
    cflags: Seq<Seq<char>>,
    before: fingerprint::ScanV,
    after: fingerprint::ScanV,
    entries: Seq<(Seq<char>, CompileEntryV)>,
    there: Seq<bool>,
    graph: Seq<(Seq<char>, Seq<Seq<char>>)>,
    force: bool,
    artifact_there: bool,
    i: int,
    j: int,
    k: int,
    m: int,
)
    requires
        p.compile is Some,
        fingerprint::one_hash_each(fingerprint::found_files(before)),
        fingerprint::one_hash_each(fingerprint::found_files(after)),
        0 <= j < fingerprint::found_files(before).len(),
        0 <= k < fingerprint::found_files(after).len(),
        fingerprint::found_files(before)[j].0 == fingerprint::found_files(after)[k].0,
        fingerprint::found_files(before)[j].1 != fingerprint::found_files(after)[k].1,
        0 <= i < entries.len() <= usize::MAX,
        incremental::recorded(graph, entries[i].0) is Some,
        0 <= m < incremental::recorded(graph, entries[i].0)->0.len(),
        paths::same_path(
            fingerprint::found_files(after)[k].0,
            incremental::recorded(graph, entries[i].0)->0[m],
        ),
    ensures
        plan_from(
            fingerprint::fingerprint_of(p, profile, commits, cflags, before)->Ok_0,
            fingerprint::fingerprint_of(p, profile, commits, cflags, after)->Ok_0,
            entries,
            there,
            graph,
            force,
            artifact_there,
        ).compile.contains(i as usize),
{
    let previous = fingerprint::fingerprint_of(p, profile, commits, cflags, before)->Ok_0;
    let current = fingerprint::fingerprint_of(p, profile, commits, cflags, after)->Ok_0;
    let a = fingerprint::found_files(before)[j];
    let b = fingerprint::found_files(after)[k];
    fingerprint::law_files_are_read_back(p, profile, commits, cflags, before, a.0);
    fingerprint::law_files_are_read_back(p, profile, commits, cflags, after, a.0);
    if text::hex(a.1 as nat, 16) == text::hex(b.1 as nat, 16) {
        text::law_hex_tells_apart(a.1, b.1);
    }
    let old_state = fingerprint::snapshot(previous);
    let new_state = fingerprint::snapshot(current);
    law_changed_files(old_state, new_state, a.0);
    let changed = changed_files(old_state, new_state);
    let files = incremental::recorded(graph, entries[i].0)->0;
    let at = choose|at: int| 0 <= at < changed.len() && changed[at] == a.0;
    assert(paths::same_path(changed[at], files[m]));
    assert(paths::has_path(changed, files[m]));
    assert(any_changed(files, changed));
    lemma_stale_among(changed, graph, entries, there, entries.len() as int, i);
    assert(all_below(entries.len() as int)[i] == i as usize);
}

/// Where anything but files is another than at the last build - the profile, a
/// setting or a flag list, the pins, the pkg-config flags or a dependency - every
/// object is compiled again and the artifact is linked.
pub proof fn law_changed_settings_recompile(
    p: ProjectV,
    profile: Seq<char>,
    commits: Seq<Seq<char>>,
    cflags: Seq<Seq<char>>,
    before: fingerprint::ScanV,
    q: ProjectV,
    other_profile: Seq<char>,
    other_commits: Seq<Seq<char>>,
    other_cflags: Seq<Seq<char>>,
    after: fingerprint::ScanV,
    entries: Seq<(Seq<char>, CompileEntryV)>,
    there: Seq<bool>,
    graph: Seq<(Seq<char>, Seq<Seq<char>>)>,
    force: bool,
    artifact_there: bool,
)
    requires
        p.compile is Some,
        q.compile is Some,
        !{
            &&& profile == other_profile
            &&& fingerprint::same_settings(p, p.compile->0, q, q.compile->0)
            &&& commits.to_multiset() == other_commits.to_multiset()
            &&& cflags == other_cflags
            &&& fingerprint::same_dependencies(
                fingerprint::table(p.dependencies),
                before.locals,
                fingerprint::table(q.dependencies),
                after.locals,
            )
        },
    ensures
        ({
            let plan = plan_from(
                fingerprint::fingerprint_of(p, profile, commits, cflags, before)->Ok_0,
                fingerprint::fingerprint_of(
                    q,
                    other_profile,
                    other_commits,
                    other_cflags,
                    after,
                )->Ok_0,
                entries,
                there,
                graph,
                force,
                artifact_there,
            );
            plan.link && plan.compile == all_below(entries.len() as int)
        }),
{
    let a = fingerprint::base_fields(
        p,
        p.compile->0,
        profile,
        commits,
        cflags,
        before.locals,
    );
    let b = fingerprint::base_fields(
        q,
        q.compile->0,
        other_profile,
        other_commits,
        other_cflags,
        after.locals,
    );
    fingerprint::law_split_reads_a_fingerprint(p, profile, commits, cflags, before);
    fingerprint::law_split_reads_a_fingerprint(
        q,
        other_profile,
        other_commits,
        other_cflags,
        after,
    );
    if a == b {
        fingerprint::law_base_shows_inputs(
            p,
            p.compile->0,
            profile,
            commits,
            cflags,
            before.locals,
            q,
            q.compile->0,
            other_profile,
            other_commits,
            other_cflags,
            after.locals,
        );
    }
}

/// An object that is not there, or of which it is not on record what it was made
/// from, is compiled.
pub proof fn law_unknown_objects_recompile(
    previous: Seq<char>,
    current: Seq<char>,
    entries: Seq<(Seq<char>, CompileEntryV)>,
    there: Seq<bool>,
    graph: Seq<(Seq<char>, Seq<Seq<char>>)>,
    force: bool,
    artifact_there: bool,
    i: int,
)
    requires
        0 <= i < entries.len() <= usize::MAX,
        !there[i] || incremental::recorded(graph, entries[i].0) is None,
    ensures
        plan_from(
            previous,
            current,
            entries,
            there,
            graph,
            force,
            artifact_there,
        ).compile.contains(i as usize),
{
    let changed = changed_files(fingerprint::snapshot(previous), fingerprint::snapshot(current));
    lemma_stale_among(changed, graph, entries, there, entries.len() as int, i);
    assert(all_below(entries.len() as int)[i] == i as usize);
}

/// Whatever is compiled is linked.
pub proof fn law_compiled_objects_are_linked(
    previous: Seq<char>,
    current: Seq<char>,
    entries: Seq<(Seq<char>, CompileEntryV)>,
    there: Seq<bool>,
    graph: Seq<(Seq<char>, Seq<Seq<char>>)>,
    force: bool,
    artifact_there: bool,
)
    ensures
        ({
            let plan = plan_from(previous, current, entries, there, graph, force, artifact_there);
            plan.compile.len() > 0 || !artifact_there ==> plan.link
        }),
{
}

proof fn lemma_recorded_distinct(start: Seq<(Seq<char>, Seq<char>)>, lines: Seq<Seq<char>>)
    requires
        names::distinct(start),
    ensures
        names::distinct(fingerprint::recorded_files(start, lines)),
    decreases lines.len(),
{
    if lines.len() > 0 {
        lemma_recorded_distinct(start, lines.drop_last());
        if let Some((p, h)) = fingerprint::file_item(lines.last()) {
            names::law_put(fingerprint::recorded_files(start, lines.drop_last()), p, h, p);
        }
    }
}

proof fn lemma_snapshot_distinct(fields: Seq<Seq<char>>)
    ensures
        names::distinct(fingerprint::snapshot_of(fields).files),
    decreases fields.len(),
{
    if fields.len() > 0 {
        lemma_snapshot_distinct(fields.drop_last());
        if let Some(lines) = fingerprint::file_field(fields.last()) {
            lemma_recorded_distinct(fingerprint::snapshot_of(fields.drop_last()).files, lines);
        }
    }
}

proof fn lemma_nothing_changed(
    all: Seq<(Seq<char>, Seq<char>)>,
    some: Seq<(Seq<char>, Seq<char>)>,
)
    requires
        names::distinct(all),
        some.len() <= all.len(),
        some == all.take(some.len() as int),
    ensures
        renewed(all, some) == Seq::<Seq<char>>::empty(),
        departed(some, all) == Seq::<Seq<char>>::empty(),
    decreases some.len(),
{
    if some.len() > 0 {
        let n = some.len() as int;
        assert(some.drop_last() =~= all.take(n - 1));
        lemma_nothing_changed(all, some.drop_last());
        assert(some.last() == all[n - 1]);
        names::lemma_position_is(all, all[n - 1].0, n - 1);
    }
}

/// An unchanged tree recompiles nothing: with the same fingerprint as before, all
/// objects there and on record, no object is compiled.
pub proof fn law_unchanged_tree_recompiles_nothing(
    state: Seq<char>,
    entries: Seq<(Seq<char>, CompileEntryV)>,
    there: Seq<bool>,
    graph: Seq<(Seq<char>, Seq<Seq<char>>)>,
    artifact_there: bool,
)
    requires
        state.len() > 0,
        there.len() == entries.len(),
        forall|i: int|
            0 <= i < entries.len() ==> there[i] && incremental::recorded(
                graph,
                (#[trigger] entries[i]).0,
            ) is Some,
    ensures
        plan_from(state, state, entries, there, graph, false, artifact_there).compile == Seq::<
            usize,
        >::empty(),
{
    let s = fingerprint::snapshot(state);
    lemma_snapshot_distinct(pack::unpack(state));
    assert(s.files =~= s.files.take(s.files.len() as int));
    lemma_nothing_changed(s.files, s.files);
    let changed = changed_files(s, s);
    assert(changed =~= Seq::empty());
    lemma_none_stale(changed, graph, entries, there, entries.len() as int);
}

proof fn lemma_none_stale(
    changed: Seq<Seq<char>>,
    graph: Seq<(Seq<char>, Seq<Seq<char>>)>,
    entries: Seq<(Seq<char>, CompileEntryV)>,
    there: Seq<bool>,
    n: int,
)
    requires
        changed.len() == 0,
        0 <= n <= entries.len(),
        forall|i: int|
            0 <= i < entries.len() ==> there[i] && incremental::recorded(
                graph,
                (#[trigger] entries[i]).0,
            ) is Some,
    ensures
        stale_among(changed, graph, entries, there, n) == Seq::<usize>::empty(),
    decreases n,
{
    if n > 0 {
        lemma_none_stale(changed, graph, entries, there, n - 1);
        assert(incremental::recorded(graph, entries[n - 1].0) is Some);
    }
}

// ---------------------------------------------------------------------------
// Carrying a plan out
// ---------------------------------------------------------------------------

/// What carrying out a plan consists of.
#[derive(Clone, Copy, Debug, PartialEq, Eq, Structural)]
pub enum Step {
    /// Compile the objects of the plan.
    Compile,
    /// Record what the compiled objects were made from, and make the fingerprint
    /// anew with it.
    RecordObjects,
    /// Make the artifact.
    Link,
    /// Record the fingerprint.
    RecordState,
}

/// The steps that carry out a plan, in order.
pub open spec fn steps_for(record_state: bool, plan: PlanV) -> Seq<Step> {
    let compiles = plan.compile.len() > 0;
    (if compiles {
        seq![Step::Compile]
    } else {
        Seq::empty()
    }) + (if record_state && compiles {
        seq![Step::RecordObjects]
    } else {
        Seq::empty()
    }) + (if plan.link {
        seq![Step::Link]
    } else {
        Seq::empty()
    }) + (if record_state {
        seq![Step::RecordState]
    } else {
        Seq::empty()
    })
}

/// The steps that carry out a plan, in order.
pub fn plan_steps(record_state: bool, plan: &Plan) -> (out: Vec<Step>)
    ensures
        out@ == steps_for(record_state, plan@),
{
    let compiles = plan.compile.len() > 0;
    let mut out: Vec<Step> = Vec::new();
    if compiles {
        out.push(Step::Compile);
        if record_state {
            out.push(Step::RecordObjects);
        }
    }
    if plan.link {
        out.push(Step::Link);
    }
    if record_state {
        out.push(Step::RecordState);
    }
    proof {
        assert(out@ =~= steps_for(record_state, plan@));
    }
    out
}

/// The state is recorded last, and only by builds that record it: a build that
/// failed part way leaves the state of the one before.
pub proof fn law_state_is_recorded_last(record_state: bool, plan: PlanV, i: int)
    requires
        0 <= i < steps_for(record_state, plan).len(),
    ensures
        steps_for(record_state, plan)[i] == Step::RecordState <==> record_state && i == steps_for(
            record_state,
            plan,
        ).len() - 1,
{
}

/// The objects that a plan compiles.
pub open spec fn chosen(all: Seq<Seq<char>>, picks: Seq<usize>) -> Seq<Seq<char>> {
    picks.map_values(|i: usize| all[i as int])
}

/// The objects that a plan compiles.
pub fn compiled_objects(objects: &[String], plan: &Plan) -> (out: Vec<String>)
    requires
        forall|k: int| 0 <= k < plan@.compile.len() ==> (#[trigger] plan@.compile[k]) < objects@.len(),
    ensures
        text::texts(out@) == chosen(text::texts(objects@), plan@.compile),
{
    let ghost want = chosen(text::texts(objects@), plan@.compile);
    let mut out = text::none();
    let mut i: usize = 0;
    while i < plan.compile.len()
        invariant
            i <= plan@.compile.len(),
            plan@.compile == plan.compile@,
            want == chosen(text::texts(objects@), plan@.compile),
            text::texts(out@) == want.take(i as int),
            forall|k: int|
                0 <= k < plan@.compile.len() ==> (#[trigger] plan@.compile[k]) < objects@.len(),
        decreases plan@.compile.len() - i,
    {
        proof {
            assert(plan@.compile[i as int] < objects@.len());
        }
        text::push_text(&mut out, objects[plan.compile[i]].as_str());
        i += 1;
        proof {
            assert(want.take(i as int) =~= want.take(i - 1).push(want[i - 1]));
        }
    }
    proof {
        assert(want.take(i as int) =~= want);
    }
    out
}

proof fn lemma_stale_in_range(
    changed: Seq<Seq<char>>,
    graph: Seq<(Seq<char>, Seq<Seq<char>>)>,
    entries: Seq<(Seq<char>, CompileEntryV)>,
    there: Seq<bool>,
    n: int,
)
    requires
        0 <= n <= entries.len() <= usize::MAX,
    ensures
        forall|k: int|
            0 <= k < stale_among(changed, graph, entries, there, n).len() ==> (#[trigger] stale_among(
                changed,
                graph,
                entries,
                there,
                n,
            )[k]) < n,
    decreases n,
{
    if n > 0 {
        lemma_stale_in_range(changed, graph, entries, there, n - 1);
        let front = stale_among(changed, graph, entries, there, n - 1);
        let s = stale_among(changed, graph, entries, there, n);
        assert forall|k: int| 0 <= k < s.len() implies (#[trigger] s[k]) < n by {
            if k < front.len() {
                assert(s[k] == front[k]);
            }
        }
    }
}

/// A plan names objects of the build only.
pub proof fn law_plan_names_entries(
    previous: Seq<char>,
    current: Seq<char>,
    entries: Seq<(Seq<char>, CompileEntryV)>,
    there: Seq<bool>,
    graph: Seq<(Seq<char>, Seq<Seq<char>>)>,
    force: bool,
    artifact_there: bool,
    k: int,
)
    requires
        entries.len() <= usize::MAX,
        0 <= k < plan_from(
            previous,
            current,
            entries,
            there,
            graph,
            force,
            artifact_there,
        ).compile.len(),
    ensures
        plan_from(previous, current, entries, there, graph, force, artifact_there).compile[k]
            < entries.len(),
{
    let changed = changed_files(fingerprint::snapshot(previous), fingerprint::snapshot(current));
    lemma_stale_in_range(changed, graph, entries, there, entries.len() as int);
}

/// The model of what was read of some depfiles.
pub open spec fn read_view(v: Seq<Option<Vec<String>>>) -> Seq<Option<Seq<Seq<char>>>> {
    v.map_values(|f: Option<Vec<String>>| text::opt_texts(f))
}

/// A record after the first `n` of some objects were compiled: what was read of
/// their depfiles takes the place of what was there.
pub open spec fn record_after(
    graph: Seq<(Seq<char>, Seq<Seq<char>>)>,
    compiled: Seq<Seq<char>>,
    read: Seq<Option<Seq<Seq<char>>>>,
    n: int,
) -> Seq<(Seq<char>, Seq<Seq<char>>)>
    decreases n,
{
    if n <= 0 {
        graph
    } else {
        let before = record_after(graph, compiled, read, n - 1);
        match read[n - 1] {
            Some(files) => incremental::with_record(before, compiled[n - 1], files),
            None => before,
        }
    }
}

/// Record what the compiled objects were made from, where that could be read, and
/// forget the objects that the build no longer has.
pub fn record_objects(
    graph: &mut DepGraph,
    compiled: &[String],
    read: &Vec<Option<Vec<String>>>,
    objects: &[String],
)
    requires
        compiled@.len() == read@.len(),
    ensures
        final(graph)@ == incremental::record_of(
            record_after(
                old(graph)@,
                text::texts(compiled@),
                read_view(read@),
                compiled@.len() as int,
            ),
            text::texts(objects@),
        ),
{
    let ghost before = graph@;
    let ghost cv = text::texts(compiled@);
    let ghost rv = read_view(read@);
    let mut i: usize = 0;
    while i < compiled.len()
        invariant
            i <= compiled@.len() == read@.len(),
            cv == text::texts(compiled@),
            rv == read_view(read@),
            graph@ == record_after(before, cv, rv, i as int),
        decreases compiled@.len() - i,
    {
        proof {
            assert(cv[i as int] == compiled@[i as int]@);
            assert(rv[i as int] == text::opt_texts(read@[i as int]));
        }
        if let Some(files) = &read[i] {
            let copy = text::copy_texts(files.as_slice());
            graph.insert(compiled[i].as_str(), copy);
        }
        i += 1;
    }
    graph.retain(objects);
}

// ---------------------------------------------------------------------------
// Tests
// ---------------------------------------------------------------------------

/// A profile for a test: it keeps its flags, and loses what would change what the
/// test is (its type, linkage, sources and artifact) and the tests themselves.
pub open spec fn test_profile_of(p: ProfileV) -> ProfileV {
    ProfileV {
        ty: None,
        link: None,
        src: None,
        tests: None,
        artifact: None,
        generate_pc: None,
        ..p
    }
}

/// A profile for a test.
pub fn test_profile(p: &Profile) -> (out: Profile)
    ensures
        out@ == test_profile_of(p@),
{
    let copy = p.clone();
    Profile {
        ty: None,
        link: None,
        src: None,
        tests: None,
        artifact: None,
        generate_pc: None,
        ..copy
    }
}

/// The compile settings of a test: those of its parent, with its own sources, and
/// its own includes and flags folded in.
pub open spec fn test_compile(parent: Option<CompileV>, test: TestV) -> CompileV {
    let c = proj_parse::compile_or_none(parent);
    CompileV {
        src: test.src,
        includes: proj_parse::folded(c.includes, test.includes),
        c_flags: proj_parse::folded(c.c_flags, test.c_flags),
        ld_flags: proj_parse::folded(c.ld_flags, test.ld_flags),
        ..c
    }
}

/// The parent as a dependency of its test: what lies in the same directory, built
/// by conjure.
pub open spec fn parent_dependency() -> DependencyV {
    DependencyV {
        local: Some("."@),
        build: Some(BuildSystemV::Conjure(None)),
        ..proj_parse::no_dependency()
    }
}

/// A table, or an empty one where there is none.
pub open spec fn table_or_empty<V>(m: Option<Seq<(Seq<char>, V)>>) -> Seq<(Seq<char>, V)> {
    match m {
        Some(t) => t,
        None => Seq::empty(),
    }
}

/// Profiles for tests.
pub open spec fn all_for_tests(m: Seq<(Seq<char>, ProfileV)>) -> Seq<(Seq<char>, ProfileV)> {
    m.map_values(|e: (Seq<char>, ProfileV)| (e.0, test_profile_of(e.1)))
}

/// The profiles of a test: those of its parent, the active one made one for a
/// test, and with it all that it may inherit from.
pub open spec fn test_profiles(
    profiles: Option<Seq<(Seq<char>, ProfileV)>>,
    active: Option<Seq<char>>,
) -> Option<Seq<(Seq<char>, ProfileV)>> {
    match (profiles, active) {
        (Some(m), Some(a)) => match names::lookup(m, a) {
            Some(p) => if p.extends.len() == 0 {
                Some(names::put(m, a, test_profile_of(p)))
            } else {
                Some(all_for_tests(m))
            },
            None => profiles,
        },
        _ => profiles,
    }
}

/// The project of a test: a dynamically linked binary of its own sources, which
/// depends on its parent and goes into a directory of its own below the parent's
/// binaries.
pub open spec fn test_project_of(
    parent: ProjectV,
    name: Seq<char>,
    test: TestV,
    profile: Option<Seq<char>>,
) -> Result<ProjectV, FaultV> {
    match test.src {
        None => Err(
            diag::hinted(
                "Test `"@ + name + "` has no `src`"@,
                "Test `"@ + name + "` must have a `src` specified"@,
            ),
        ),
        Some(_) => {
            let bin = match parent.output {
                Some(o) => match o.bin {
                    Some(b) => b,
                    None => "bin"@,
                },
                None => "bin"@,
            };
            Ok(
                ProjectV {
                    name,
                    language: parent.language,
                    ty: ProjectType::Binary,
                    link: Linkage::Dynamic,
                    compile: Some(test_compile(parent.compile, test)),
                    profiles: test_profiles(parent.profiles, profile),
                    dependencies: Some(
                        names::put(
                            table_or_empty(parent.dependencies),
                            parent.name,
                            parent_dependency(),
                        ),
                    ),
                    output: Some(
                        OutputV {
                            bin: Some(paths::joined(bin, name)),
                            lib: None,
                            symlink_binaries: match parent.output {
                                Some(o) => o.symlink_binaries,
                                None => None,
                            },
                        },
                    ),
                    ..proj_parse::no_project()
                },
            )
        },
    }
}

fn every_profile_for_tests(m: &NameMap<Profile>) -> (out: NameMap<Profile>)
    ensures
        out@ == all_for_tests(m@),
{
    let ghost want = all_for_tests(m@);
    let mut out: NameMap<Profile> = NameMap::new();
    let mut i: usize = 0;
    while i < m.len()
        invariant
            i <= m@.len(),
            names::distinct(m@) || i == 0,
            want == all_for_tests(m@),
            out@ == want.take(i as int),
        decreases m@.len() - i,
    {
        let ghost so_far = out@;
        out.insert(m.name_at(i).to_owned(), test_profile(m.value_at(i)));
        proof {
            let name = m@[i as int].0;
            names::lemma_position(so_far, name);
            if names::holds(so_far, name) {
                let k = names::position(so_far, name);
                assert(m@[k].0 == name);
            }
            assert(want.take(i + 1) =~= want.take(i as int).push(want[i as int]));
        }
        i += 1;
    }
    proof {
        assert(want.take(i as int) =~= want);
    }
    out
}

fn profiles_for_test(profiles: &Option<NameMap<Profile>>, active: Option<&str>) -> (out: Option<
    NameMap<Profile>,
>)
    ensures
        text::opt(out) == test_profiles(text::opt(*profiles), text::opt(active)),
{
    match profiles {
        Some(m) => {
            if let Some(a) = active {
                if let Some(p) = m.get(a) {
                    proof {
                        assert(p@.extends.len() == p.extends@.len());
                    }
                    if p.extends.len() == 0 {
                        let mut copy: NameMap<Profile> = m.clone();
                        copy.insert(a.to_owned(), test_profile(p));
                        return Some(copy);
                    }
                    return Some(every_profile_for_tests(m));
                }
            }
            Some(m.clone())
        },
        None => None,
    }
}

/// The project that builds a test of `parent`.
pub fn test_project(parent: &Project, name: &str, test: &Test, profile: Option<&str>) -> (out: Result<
    Project,
    Fault,
>)
    ensures
        match out {
            Ok(p) => test_project_of(parent@, name@, test@, text::opt(profile)) == Ok::<
                ProjectV,
                FaultV,
            >(p@),
            Err(e) => test_project_of(parent@, name@, test@, text::opt(profile)) == Err::<
                ProjectV,
                FaultV,
            >(e@),
        },
{
    if test.src.is_none() {
        let help = text::cat3("Test `", name, "` must have a `src` specified");
        return Err(
            Fault::hinted(text::cat3("Test `", name, "` has no `src`"), help.as_str()),
        );
    }
    let base = match &parent.compile {
        Some(c) => c.clone(),
        None => Compile::default(),
    };
    let includes = proj_parse::merge_flags(&base.includes, &test.includes);
    let c_flags = proj_parse::merge_flags(&base.c_flags, &test.c_flags);
    let ld_flags = proj_parse::merge_flags(&base.ld_flags, &test.ld_flags);
    let compile = Compile {
        src: proj_parse::copy_flags(&test.src),
        includes,
        c_flags,
        ld_flags,
        ..base
    };
    let mut dependencies: NameMap<Dependency> = match &parent.dependencies {
        Some(d) => d.clone(),
        None => NameMap::new(),
    };
    dependencies.insert(
        parent.name.clone(),
        Dependency {
            local: Some(".".to_owned()),
            build: Some(BuildSystem::Conjure(None)),
            ..Dependency::default()
        },
    );
    let profiles = profiles_for_test(&parent.profiles, profile);
    let bin = match &parent.output {
        Some(o) => match &o.bin {
            Some(b) => b.as_str(),
            None => "bin",
        },
        None => "bin",
    };
    let symlink_binaries = match &parent.output {
        Some(o) => o.symlink_binaries,
        None => None,
    };
    Ok(
        Project {
            name: name.to_owned(),
            language: parent.language,
            ty: ProjectType::Binary,
            link: Linkage::Dynamic,
            compile: Some(compile),
            profiles,
            dependencies: Some(dependencies),
            output: Some(
                Output { bin: Some(paths::join(bin, name)), lib: None, symlink_binaries },
            ),
            ..Project::default()
        },
    )
}

/// The tests that a profile of a project has.
pub open spec fn tests_under(p: ProjectV, profile: Option<Seq<char>>) -> Seq<(Seq<char>, TestV)> {
    table_or_empty(deps::effective_under(p, profile).tests)
}

/// The first of some names that a table lacks.
pub open spec fn first_missing<V>(m: Seq<(Seq<char>, V)>, wants: Seq<Seq<char>>) -> Option<
    Seq<char>,
>
    decreases wants.len(),
{
    if wants.len() == 0 {
        None
    } else if !names::holds(m, wants[0]) {
        Some(wants[0])
    } else {
        first_missing(m, wants.skip(1))
    }
}

/// Why tests cannot be built.
pub open spec fn tests_fault(p: ProjectV, profile: Option<Seq<char>>, wants: Seq<Seq<char>>) -> Option<
    FaultV,
> {
    let tests = tests_under(p, profile);
    if tests.len() == 0 {
        Some(diag::plain("No `tests` in conjure.kdl"@))
    } else if deps::effective_under(p, profile).ty != ProjectType::Library {
        Some(
            diag::hinted(
                "`"@ + p.name + "` is not a library under this profile"@,
                "Tests link the project's library, so the selected profile must be `type library`"@,
            ),
        )
    } else {
        match first_missing(tests, wants) {
            Some(w) => Some(diag::plain("test `"@ + w + "` not found"@)),
            None => None,
        }
    }
}

/// The tests to build, in order of their names: those that were asked for, or all
/// where none was.
pub open spec fn tests_to_build(
    p: ProjectV,
    profile: Option<Seq<char>>,
    wants: Seq<Seq<char>>,
) -> Seq<Seq<char>> {
    order::sorted(names::keys(tests_under(p, profile))).filter(
        |n: Seq<char>| wants.len() == 0 || wants.contains(n),
    )
}

fn missing_name(tests: &NameMap<Test>, wants: &[String]) -> (out: Option<String>)
    ensures
        text::opt(out) == first_missing(tests@, text::texts(wants@)),
{
    let ghost all = text::texts(wants@);
    let mut i: usize = 0;
    proof {
        assert(all.skip(0) =~= all);
    }
    while i < wants.len()
        invariant
            i <= wants@.len(),
            all == text::texts(wants@),
            first_missing(tests@, all) == first_missing(tests@, all.skip(i as int)),
        decreases wants@.len() - i,
    {
        proof {
            assert(all.skip(i as int)[0] == wants@[i as int]@);
            assert(all.skip(i as int).skip(1) =~= all.skip(i + 1));
        }
        if !tests.contains_key(wants[i].as_str()) {
            return Some(wants[i].clone());
        }
        i += 1;
    }
    None
}

fn keep_wanted(sorted_names: &[String], wants: &[String]) -> (out: Vec<String>)
    ensures
        text::texts(out@) == text::texts(sorted_names@).filter(
            |n: Seq<char>| text::texts(wants@).len() == 0 || text::texts(wants@).contains(n),
        ),
{
    let ghost all = text::texts(sorted_names@);
    let ghost ws = text::texts(wants@);
    let ghost pred = |n: Seq<char>| ws.len() == 0 || ws.contains(n);
    let mut out = text::none();
    let mut i: usize = 0;
    proof {
        reveal(Seq::filter);
        assert(all.take(0) =~= Seq::empty());
    }
    while i < sorted_names.len()
        invariant
            i <= sorted_names@.len(),
            all == text::texts(sorted_names@),
            ws == text::texts(wants@),
            pred == (|n: Seq<char>| ws.len() == 0 || ws.contains(n)),
            text::texts(out@) == all.take(i as int).filter(pred),
        decreases sorted_names@.len() - i,
    {
        proof {
            reveal(Seq::filter);
            assert(all.take(i + 1).drop_last() =~= all.take(i as int));
            assert(all.take(i + 1).last() == sorted_names@[i as int]@);
        }
        if wants.len() == 0 || text::has_text(wants, sorted_names[i].as_str()) {
            text::push_text(&mut out, sorted_names[i].as_str());
        }
        i += 1;
    }
    proof {
        assert(all.take(i as int) =~= all);
    }
    out
}

/// The names of the tests to build, or why they cannot be. The names are looked up
/// in the project under its profile, and each is built from the project as it is,
/// so that the profile is folded in once.
pub fn test(project: &Project, profile: Option<&str>, wants: &[String]) -> (out: Result<
    Vec<String>,
    Fault,
>)
    ensures
        match out {
            Ok(v) => tests_fault(project@, text::opt(profile), text::texts(wants@)) is None
                && text::texts(v@) == tests_to_build(
                project@,
                text::opt(profile),
                text::texts(wants@),
            ),
            Err(e) => tests_fault(project@, text::opt(profile), text::texts(wants@)) == Some(e@),
        },
{
    let effective = deps::under_profile(project, profile);
    let none = "No `tests` in conjure.kdl";
    match &effective.tests {
        None => Err(Fault::plain(none.to_owned())),
        Some(tests) => {
            if tests.is_empty() {
                return Err(Fault::plain(none.to_owned()));
            }
            if !effective.is_library() {
                let message = text::cat3(
                    "`",
                    project.name.as_str(),
                    "` is not a library under this profile",
                );
                return Err(
                    Fault::hinted(
                        message,
                        "Tests link the project's library, so the selected profile must be `type library`",
                    ),
                );
            }
            if let Some(w) = missing_name(tests, wants) {
                return Err(Fault::plain(text::cat3("test `", w.as_str(), "` not found")));
            }
            let sorted_names = tests.sorted_keys();
            Ok(keep_wanted(sorted_names.as_slice(), wants))
        },
    }
}

proof fn lemma_lookup_for_tests(m: Seq<(Seq<char>, ProfileV)>, name: Seq<char>)
    ensures
        names::lookup(all_for_tests(m), name) == (match names::lookup(m, name) {
            Some(p) => Some(test_profile_of(p)),
            None => None,
        }),
{
    let all = all_for_tests(m);
    names::lemma_position(m, name);
    let k = names::position(m, name);
    assert forall|j: int| 0 <= j < k implies (#[trigger] all[j]).0 != name by {
        assert(m[j].0 != name);
    }
    names::lemma_position_is(all, name, k);
}

proof fn lemma_inherited_for_tests(
    p: ProjectV,
    m: Seq<(Seq<char>, ProfileV)>,
    extends: Seq<Seq<char>>,
    depth: nat,
)
    requires
        p.compile is Some,
    ensures
        ({
            let e = proj_parse::inherited(p, all_for_tests(m), extends, depth);
            &&& e.ty == p.ty && e.link == p.link && e.tests == p.tests
            &&& e.compile is Some && e.compile->0.src == p.compile->0.src
        }),
    decreases depth, extends.len(),
{
    if extends.len() > 0 {
        let all = all_for_tests(m);
        lemma_inherited_for_tests(p, m, extends.drop_last(), depth);
        let before = proj_parse::inherited(p, all, extends.drop_last(), depth);
        lemma_lookup_for_tests(m, extends.last());
        if let Some(g) = names::lookup(all, extends.last()) {
            if depth > 0 {
                lemma_inherited_for_tests(before, m, g.extends, (depth - 1) as nat);
            }
        }
    }
}


/// A test is a binary that links the library it tests: it depends on its parent,
/// whatever the parent's dependencies are, and is not itself a library.
pub proof fn law_tests_link_their_parent(
    parent: ProjectV,
    name: Seq<char>,
    test: TestV,
    profile: Option<Seq<char>>,
)
    requires
        test.src is Some,
    ensures
        ({
            let child = test_project_of(parent, name, test, profile)->Ok_0;
            let built = deps::effective_under(child, profile);
            &&& built.ty == ProjectType::Binary
            &&& built.link == Linkage::Dynamic
            &&& names::lookup(child.dependencies->0, parent.name) == Some(parent_dependency())
            &&& built.compile->0.src == test.src
            &&& built.tests is None
        }),
{
    let child = test_project_of(parent, name, test, profile)->Ok_0;
    names::law_put(
        table_or_empty(parent.dependencies),
        parent.name,
        parent_dependency(),
        parent.name,
    );
    if let (Some(m), Some(a)) = (parent.profiles, profile) {
        if let Some(p) = names::lookup(m, a) {
            if p.extends.len() == 0 {
                names::law_put(m, a, test_profile_of(p), a);
            } else {
                let all = all_for_tests(m);
                names::lemma_position(m, a);
                names::lemma_position(all, a);
                lemma_lookup_for_tests(m, a);
                lemma_inherited_for_tests(child, m, p.extends, all.len());
            }
        }
    }
}

// ---------------------------------------------------------------------------
// Several projects
// ---------------------------------------------------------------------------

/// The paths of a project's siblings, in order.
pub open spec fn sibling_order(p: ProjectV) -> Seq<Seq<char>> {
    order::sorted(
        table_or_empty(p.siblings).map_values(|e: (Seq<char>, Seq<char>)| e.1),
    )
}

/// The directories of a build: the root project first, then its siblings in order
/// of their paths.
pub open spec fn directories(p: ProjectV, root: Seq<char>, siblings: bool) -> Seq<Seq<char>> {
    seq![root] + (if siblings {
        deps::joined_all(root, sibling_order(p))
    } else {
        Seq::empty()
    })
}

/// The directories of a build: the root project first, then every sibling. Sorted,
/// so that a run over several siblings is the same every time.
pub fn build(project: &Project, root: &str, siblings: bool) -> (out: Vec<String>)
    ensures
        text::texts(out@) == directories(project@, root@, siblings),
{
    let mut out = text::one(root);
    let ghost first = text::texts(out@);
    let mut found = text::none();
    let ghost want = table_or_empty(project@.siblings).map_values(
        |e: (Seq<char>, Seq<char>)| e.1,
    );
    if let Some(map) = &project.siblings {
        let mut i: usize = 0;
        while i < map.len()
            invariant
                i <= map@.len(),
                want == map@.map_values(|e: (Seq<char>, Seq<char>)| e.1),
                text::texts(found@) == want.take(i as int),
            decreases map@.len() - i,
        {
            text::push_text(&mut found, map.value_at(i).path.as_str());
            i += 1;
            proof {
                assert(want.take(i as int) =~= want.take(i - 1).push(want[i - 1]));
            }
        }
        proof {
            assert(want.take(i as int) =~= want);
        }
    } else {
        proof {
            assert(want =~= Seq::empty());
        }
    }
    if siblings {
        let sorted_paths = order::sort_texts(found.as_slice());
        let dirs = deps::join_all(root, sorted_paths.as_slice());
        text::extend_texts(&mut out, dirs.as_slice());
    } else {
        proof {
            assert(first + Seq::<Seq<char>>::empty() =~= first);
        }
    }
    out
}

/// The model of the projects that go into the compile database.
pub open spec fn targets_view(v: Seq<(Project, String)>) -> Seq<(ProjectV, Seq<char>)> {
    v.map_values(|t: (Project, String)| (t.0@, t.1@))
}

/// The projects of some tests, each under the profile, up to the first that cannot
/// be built.
pub open spec fn test_targets(
    p: ProjectV,
    tests: Seq<(Seq<char>, TestV)>,
    profile: Option<Seq<char>>,
    order: Seq<Seq<char>>,
) -> (Seq<(ProjectV, Seq<char>)>, Option<FaultV>)
    decreases order.len(),
{
    if order.len() == 0 {
        (Seq::empty(), None)
    } else {
        let front = test_targets(p, tests, profile, order.drop_last());
        if front.1 is Some {
            front
        } else {
            match test_project_of(
                p,
                order.last(),
                names::lookup(tests, order.last())->0,
                profile,
            ) {
                Ok(child) => (
                    front.0.push(
                        (
                            deps::effective_under(child, profile),
                            deps::profile_built(child, profile),
                        ),
                    ),
                    None,
                ),
                Err(e) => (front.0, Some(e)),
            }
        }
    }
}

/// What goes into the compile database for one project: the project itself, then
/// each of its tests, with the profile each is built under.
pub open spec fn database_of(p: ProjectV, profile: Option<Seq<char>>) -> (
    Seq<(ProjectV, Seq<char>)>,
    Option<FaultV>,
) {
    let tests = tests_under(p, profile);
    let rest = test_targets(p, tests, profile, order::sorted(names::keys(tests)));
    (
        seq![(deps::effective_under(p, profile), deps::profile_built(p, profile))] + rest.0,
        rest.1,
    )
}

proof fn lemma_test_targets_stop(
    p: ProjectV,
    tests: Seq<(Seq<char>, TestV)>,
    profile: Option<Seq<char>>,
    order: Seq<Seq<char>>,
    n: int,
)
    requires
        0 <= n <= order.len(),
        test_targets(p, tests, profile, order.take(n)).1 is Some,
    ensures
        test_targets(p, tests, profile, order) == test_targets(p, tests, profile, order.take(n)),
    decreases order.len() - n,
{
    if n < order.len() {
        assert(order.take(n + 1).drop_last() =~= order.take(n));
        lemma_test_targets_stop(p, tests, profile, order, n + 1);
    } else {
        assert(order.take(n) =~= order);
    }
}

/// What goes into the compile database for one project: the project, under its
/// profile, and then one project per test, by the same synthesis that builds the
/// test. Where a test cannot be built, what comes before it is returned with the
/// fault.
pub fn database_targets(project: &Project, profile: Option<&str>) -> (out: (
    Vec<(Project, String)>,
    Option<Fault>,
))
    ensures
        (targets_view(out.0@), text::opt(out.1)) == database_of(project@, text::opt(profile)),
{
    let effective = deps::under_profile(project, profile);
    let name = deps::built_profile(project, profile);
    let ghost pv = text::opt(profile);
    let ghost first = (effective@, name@);
    let tests = names::copy_table(&effective.tests);
    let mut out: Vec<(Project, String)> = Vec::new();
    out.push((effective, name));
    proof {
        assert(targets_view(out@) =~= seq![first]);
        assert(seq![first] + Seq::<(ProjectV, Seq<char>)>::empty() =~= seq![first]);
    }
    match &tests {
        None => {
            proof {
                assert(names::keys(Seq::<(Seq<char>, TestV)>::empty()) =~= Seq::empty());
                order::law_sorted(Seq::empty());
                assert(order::sorted(Seq::<Seq<char>>::empty()) =~= Seq::empty());
            }
            (out, None)
        },
        Some(map) => {
            let sorted_names = map.sorted_keys();
            let ghost want = order::sorted(names::keys(map@));
            let mut i: usize = 0;
            proof {
                assert(want.take(0) =~= Seq::empty());
            }
            while i < sorted_names.len()
                invariant
                    i <= sorted_names@.len(),
                    want == text::texts(sorted_names@),
                    want == order::sorted(names::keys(map@)),
                    pv == text::opt(profile),
                    map@ == tests_under(project@, pv),
                    first == (
                        deps::effective_under(project@, pv),
                        deps::profile_built(project@, pv),
                    ),
                    test_targets(project@, map@, pv, want.take(i as int)).1 is None,
                    targets_view(out@) == seq![first] + test_targets(
                        project@,
                        map@,
                        pv,
                        want.take(i as int),
                    ).0,
                decreases sorted_names@.len() - i,
            {
                let test_name = sorted_names[i].as_str();
                let ghost front = test_targets(project@, map@, pv, want.take(i as int));
                proof {
                    assert(want[i as int] == test_name@);
                    assert(want.contains(test_name@));
                    order::law_sorted(names::keys(map@));
                    names::lemma_holds(map@, test_name@);
                    assert(want.take(i + 1).drop_last() =~= want.take(i as int));
                    assert(want.take(i + 1).last() == test_name@);
                }
                if let Some(target) = map.get(test_name) {
                    match test_project(project, test_name, target, profile) {
                        Ok(child) => {
                            let eff = deps::under_profile(&child, profile);
                            let built = deps::built_profile(&child, profile);
                            let ghost pair = (eff@, built@);
                            let ghost before = out@;
                            out.push((eff, built));
                            proof {
                                assert(targets_view(out@) =~= targets_view(before).push(pair));
                                assert((seq![first] + front.0).push(pair) =~= seq![first]
                                    + front.0.push(pair));
                            }
                        },
                        Err(e) => {
                            proof {
                                lemma_test_targets_stop(project@, map@, pv, want, i + 1);
                            }
                            return (out, Some(e));
                        },
                    }
                }
                i += 1;
            }
            proof {
                assert(want.take(i as int) =~= want);
            }
            (out, None)
        },
    }
}

proof fn lemma_test_targets(
    p: ProjectV,
    tests: Seq<(Seq<char>, TestV)>,
    profile: Option<Seq<char>>,
    order: Seq<Seq<char>>,
)
    requires
        test_targets(p, tests, profile, order).1 is None,
    ensures
        test_targets(p, tests, profile, order).0.len() == order.len(),
        forall|i: int|
            0 <= i < order.len() ==> is_target_of(
                #[trigger] test_targets(p, tests, profile, order).0[i],
                p,
                order[i],
                names::lookup(tests, order[i])->0,
                profile,
            ),
    decreases order.len(),
{
    if order.len() > 0 {
        let front = order.drop_last();
        lemma_test_targets(p, tests, profile, front);
        let all = test_targets(p, tests, profile, order).0;
        assert forall|i: int| 0 <= i < order.len() implies is_target_of(
            #[trigger] all[i],
            p,
            order[i],
            names::lookup(tests, order[i])->0,
            profile,
        ) by {
            if i < front.len() {
                assert(all[i] == test_targets(p, tests, profile, front).0[i]);
                assert(front[i] == order[i]);
            }
        }
    }
}

/// Whether a target of the compile database is what a test is built as.
pub open spec fn is_target_of(
    target: (ProjectV, Seq<char>),
    p: ProjectV,
    name: Seq<char>,
    test: TestV,
    profile: Option<Seq<char>>,
) -> bool {
    test_project_of(p, name, test, profile) matches Ok(child) && target == (
        deps::effective_under(child, profile),
        deps::profile_built(child, profile),
    )
}

/// Every test has entries of its own in the compile database: beside the project
/// itself there is one target per test that the profile has, which is the project
/// the test is built as.
pub proof fn law_database_covers_the_tests(p: ProjectV, profile: Option<Seq<char>>, name: Seq<char>)
    requires
        database_of(p, profile).1 is None,
        names::holds(tests_under(p, profile), name),
    ensures
        database_of(p, profile).0.len() == 1 + tests_under(p, profile).len(),
        exists|i: int|
            1 <= i < database_of(p, profile).0.len() && is_target_of(
                #[trigger] database_of(p, profile).0[i],
                p,
                name,
                names::lookup(tests_under(p, profile), name)->0,
                profile,
            ),
{
    let tests = tests_under(p, profile);
    let keys = names::keys(tests);
    let sorted = order::sorted(keys);
    order::law_sorted(keys);
    names::lemma_holds(tests, name);
    lemma_test_targets(p, tests, profile, sorted);
    assert(sorted.contains(name));
    let i = choose|i: int| 0 <= i < sorted.len() && sorted[i] == name;
    assert(database_of(p, profile).0[i + 1] == test_targets(p, tests, profile, sorted).0[i]);
}

// ---------------------------------------------------------------------------
// What must hold of a build
// ---------------------------------------------------------------------------

/// A build is skipped exactly where it records its state, pkg-config could be asked,
/// it is not forced, nothing changed since, and what it made is still there.
pub proof fn law_when_a_build_is_skipped(
    c: BuildCtxV,
    pkg_known: bool,
    previous: Seq<char>,
    current: Seq<char>,
    artifact_there: bool,
)
    ensures
        c.force ==> !is_current(c, pkg_known, previous, current, artifact_there),
        !c.record_state ==> !is_current(c, pkg_known, previous, current, artifact_there),
        !pkg_known ==> !is_current(c, pkg_known, previous, current, artifact_there),
        !artifact_there ==> !is_current(c, pkg_known, previous, current, artifact_there),
        previous != current ==> !is_current(c, pkg_known, previous, current, artifact_there),
        !c.force && c.record_state && pkg_known && artifact_there ==> is_current(
            c,
            pkg_known,
            current,
            current,
            artifact_there,
        ),
{
}

/// A build that is skipped has the same inputs as the one before: the profile, every
/// setting, pins, flags, dependencies, sources and headers.
pub proof fn law_skipped_builds_have_the_same_inputs(
    c: BuildCtxV,
    pkg_known: bool,
    artifact_there: bool,
    p: ProjectV,
    profile: Seq<char>,
    commits: Seq<Seq<char>>,
    cflags: Seq<Seq<char>>,
    before: fingerprint::ScanV,
    q: ProjectV,
    other_profile: Seq<char>,
    other_commits: Seq<Seq<char>>,
    other_cflags: Seq<Seq<char>>,
    after: fingerprint::ScanV,
)
    requires
        p.compile is Some,
        q.compile is Some,
        is_current(
            c,
            pkg_known,
            fingerprint::fingerprint_of(p, profile, commits, cflags, before)->Ok_0,
            fingerprint::fingerprint_of(
                q,
                other_profile,
                other_commits,
                other_cflags,
                after,
            )->Ok_0,
            artifact_there,
        ),
    ensures
        profile == other_profile,
        fingerprint::same_settings(p, p.compile->0, q, q.compile->0),
        commits.to_multiset() == other_commits.to_multiset(),
        cflags == other_cflags,
        before.sources.to_multiset() == after.sources.to_multiset(),
        fingerprint::headers(before.includes).to_multiset() == fingerprint::headers(
            after.includes,
        ).to_multiset(),
{
    fingerprint::law_fingerprint_shows_inputs(
        p,
        profile,
        commits,
        cflags,
        before,
        q,
        other_profile,
        other_commits,
        other_cflags,
        after,
    );
}

/// The threads of the command line take the place of those of the manifest, and
/// change nothing else.
pub proof fn law_threads_of_the_command_line(c: BuildCtxV)
    ensures
        ({
            let p = deps::effective_under(c.project, c.profile);
            let b = project_built(c);
            &&& c.threads is None ==> b == p
            &&& p.compile is None ==> b == p
            &&& c.threads is Some && p.compile is Some ==> b.compile is Some
                && b.compile->0.threads == c.threads && b == (ProjectV {
                compile: Some(CompileV { threads: c.threads, ..p.compile->0 }),
                ..p
            })
        }),
{
}

/// What is said of a profile that a project lacks, and only then.
pub proof fn law_missing_profiles_are_named(c: BuildCtxV)
    ensures
        fallback_note(c) is Some <==> c.profile is Some && !(c.project.profiles is Some
            && names::holds(c.project.profiles->0, c.profile->0)),
{
}

/// The artifact is made again exactly where an object was, where anything but files
/// changed, where the objects are not those on record, or where it is gone.
pub proof fn law_when_it_is_linked(
    previous: Seq<char>,
    current: Seq<char>,
    entries: Seq<(Seq<char>, CompileEntryV)>,
    there: Seq<bool>,
    graph: Seq<(Seq<char>, Seq<Seq<char>>)>,
    artifact_there: bool,
)
    requires
        previous.len() > 0,
    ensures
        ({
            let plan = plan_from(previous, current, entries, there, graph, false, artifact_there);
            let recorded = Seq::new(graph.len(), |i: int| graph[i].0);
            let made = Seq::new(entries.len(), |i: int| entries[i].0);
            let gone = exists|i: int|
                0 <= i < recorded.len() && !paths::has_path(made, #[trigger] recorded[i]);
            let new = exists|i: int|
                0 <= i < made.len() && !paths::has_path(recorded, #[trigger] made[i]);
            plan.link <==> plan.compile.len() > 0 || fingerprint::snapshot(previous).base
                != fingerprint::snapshot(current).base || gone || new || !artifact_there
        }),
{
    let recorded = Seq::new(graph.len(), |i: int| graph[i].0);
    let made = Seq::new(entries.len(), |i: int| entries[i].0);
    assert(incremental::objects_of(graph) =~= recorded);
    assert(objects_in(entries) =~= made);
}

proof fn lemma_stale_increasing(
    changed: Seq<Seq<char>>,
    graph: Seq<(Seq<char>, Seq<Seq<char>>)>,
    entries: Seq<(Seq<char>, CompileEntryV)>,
    there: Seq<bool>,
    n: int,
    i: int,
    j: int,
)
    requires
        0 <= n <= entries.len() <= usize::MAX,
        0 <= i < j < stale_among(changed, graph, entries, there, n).len(),
    ensures
        stale_among(changed, graph, entries, there, n)[i] < stale_among(
            changed,
            graph,
            entries,
            there,
            n,
        )[j],
    decreases n,
{
    if n > 0 {
        let front = stale_among(changed, graph, entries, there, n - 1);
        lemma_stale_in_range(changed, graph, entries, there, n - 1);
        if j < front.len() {
            lemma_stale_increasing(changed, graph, entries, there, n - 1, i, j);
        } else {
            assert(front[i] < n - 1);
        }
    }
}

/// No object is compiled twice: a plan names objects in the order of the build.
pub proof fn law_plans_are_in_order(
    previous: Seq<char>,
    current: Seq<char>,
    entries: Seq<(Seq<char>, CompileEntryV)>,
    there: Seq<bool>,
    graph: Seq<(Seq<char>, Seq<Seq<char>>)>,
    force: bool,
    artifact_there: bool,
    i: int,
    j: int,
)
    requires
        entries.len() <= usize::MAX,
        0 <= i < j < plan_from(
            previous,
            current,
            entries,
            there,
            graph,
            force,
            artifact_there,
        ).compile.len(),
    ensures
        ({
            let plan = plan_from(previous, current, entries, there, graph, force, artifact_there);
            plan.compile[i] < plan.compile[j]
        }),
{
    let changed = changed_files(fingerprint::snapshot(previous), fingerprint::snapshot(current));
    let plan = plan_from(previous, current, entries, there, graph, force, artifact_there);
    if plan.compile == stale_among(changed, graph, entries, there, entries.len() as int) {
        lemma_stale_increasing(changed, graph, entries, there, entries.len() as int, i, j);
    }
}

/// A file is among the changed ones only where its hash is another, or it came or
/// went.
pub proof fn law_unchanged_files_are_left_out(
    old_state: SnapshotV,
    new_state: SnapshotV,
    path: Seq<char>,
)
    requires
        names::distinct(old_state.files),
        names::distinct(new_state.files),
        changed_files(old_state, new_state).contains(path),
    ensures
        names::lookup(old_state.files, path) != names::lookup(new_state.files, path),
{
    let a = old_state.files;
    let b = new_state.files;
    let first = renewed(a, b);
    let second = departed(a, b);
    let all = changed_files(old_state, new_state);
    let k = choose|k: int| 0 <= k < all.len() && all[k] == path;
    names::lemma_position(a, path);
    names::lemma_position(b, path);
    if k < first.len() {
        lemma_renewed_only(a, b, k);
        let i = choose|i: int|
            0 <= i < b.len() && (#[trigger] b[i]).0 == first[k] && names::lookup(a, b[i].0) != Some(
                b[i].1,
            );
        names::lemma_holds(b, path);
        assert(names::keys(b)[i] == path);
        lemma_position_of(b, i);
    } else {
        lemma_departed_only(a, b, k - first.len());
        let i = choose|i: int|
            0 <= i < a.len() && (#[trigger] a[i]).0 == second[k - first.len()] && !names::holds(
                b,
                a[i].0,
            );
        lemma_position_of(a, i);
    }
}

proof fn lemma_position_of(m: Seq<(Seq<char>, Seq<char>)>, i: int)
    requires
        names::distinct(m),
        0 <= i < m.len(),
    ensures
        names::lookup(m, m[i].0) == Some(m[i].1),
{
    assert forall|j: int| 0 <= j < i implies (#[trigger] m[j]).0 != m[i].0 by {}
    names::lemma_position_is(m, m[i].0, i);
}

proof fn lemma_renewed_only(
    old_files: Seq<(Seq<char>, Seq<char>)>,
    new_files: Seq<(Seq<char>, Seq<char>)>,
    k: int,
)
    requires
        0 <= k < renewed(old_files, new_files).len(),
    ensures
        exists|i: int|
            0 <= i < new_files.len() && (#[trigger] new_files[i]).0 == renewed(
                old_files,
                new_files,
            )[k] && names::lookup(old_files, new_files[i].0) != Some(new_files[i].1),
    decreases new_files.len(),
{
    if new_files.len() > 0 {
        let front = new_files.drop_last();
        let some = renewed(old_files, front);
        if k < some.len() {
            lemma_renewed_only(old_files, front, k);
            let i = choose|i: int|
                0 <= i < front.len() && (#[trigger] front[i]).0 == some[k] && names::lookup(
                    old_files,
                    front[i].0,
                ) != Some(front[i].1);
            assert(new_files[i] == front[i]);
        } else {
            let n = new_files.len() - 1;
            assert(new_files[n] == new_files.last());
        }
    }
}

proof fn lemma_departed_only(
    old_files: Seq<(Seq<char>, Seq<char>)>,
    new_files: Seq<(Seq<char>, Seq<char>)>,
    k: int,
)
    requires
        0 <= k < departed(old_files, new_files).len(),
    ensures
        exists|i: int|
            0 <= i < old_files.len() && (#[trigger] old_files[i]).0 == departed(
                old_files,
                new_files,
            )[k] && !names::holds(new_files, old_files[i].0),
    decreases old_files.len(),
{
    if old_files.len() > 0 {
        let front = old_files.drop_last();
        let some = departed(front, new_files);
        if k < some.len() {
            lemma_departed_only(front, new_files, k);
            let i = choose|i: int|
                0 <= i < front.len() && (#[trigger] front[i]).0 == some[k] && !names::holds(
                    new_files,
                    front[i].0,
                );
            assert(old_files[i] == front[i]);
        } else {
            let n = old_files.len() - 1;
            assert(old_files[n] == old_files.last());
        }
    }
}

/// A plan is carried out step by step: what it compiles is compiled first and then
/// recorded, the link comes behind it, and each step is taken exactly where the plan
/// calls for it.
pub proof fn law_steps_of_a_plan(record_state: bool, plan: PlanV, i: int, j: int)
    ensures
        ({
            let steps = steps_for(record_state, plan);
            let rank = |s: Step|
                match s {
                    Step::Compile => 0int,
                    Step::RecordObjects => 1int,
                    Step::Link => 2int,
                    Step::RecordState => 3int,
                };
            &&& steps.contains(Step::Compile) <==> plan.compile.len() > 0
            &&& steps.contains(Step::RecordObjects) <==> record_state && plan.compile.len() > 0
            &&& steps.contains(Step::Link) <==> plan.link
            &&& steps.contains(Step::RecordState) <==> record_state
            &&& 0 <= i < j < steps.len() ==> rank(steps[i]) < rank(steps[j])
        }),
{
    let compiles = plan.compile.len() > 0;
    let none = Seq::<Step>::empty();
    let a = if compiles {
        seq![Step::Compile]
    } else {
        none
    };
    let b = if record_state && compiles {
        seq![Step::RecordObjects]
    } else {
        none
    };
    let c = if plan.link {
        seq![Step::Link]
    } else {
        none
    };
    let d = if record_state {
        seq![Step::RecordState]
    } else {
        none
    };
    let steps = a + b + c + d;
    assert(steps == steps_for(record_state, plan));
    if compiles {
        assert(steps[0] == Step::Compile);
    }
    if record_state && compiles {
        assert(steps[1] == Step::RecordObjects);
    }
    if plan.link {
        assert(steps[(a.len() + b.len()) as int] == Step::Link);
    }
    if record_state {
        assert(steps[(a.len() + b.len() + c.len()) as int] == Step::RecordState);
    }
}

/// What the compiler said of an object is on record afterwards; where it could not be
/// read, the record stays as it was.
pub proof fn law_compiled_objects_are_recorded(
    graph: Seq<(Seq<char>, Seq<Seq<char>>)>,
    compiled: Seq<Seq<char>>,
    read: Seq<Option<Seq<Seq<char>>>>,
    n: int,
)
    requires
        0 < n <= compiled.len(),
        compiled.len() == read.len(),
        paths::same_path(compiled[n - 1], compiled[n - 1]),
    ensures
        read[n - 1] matches Some(files) ==> incremental::recorded(
            record_after(graph, compiled, read, n),
            compiled[n - 1],
        ) == Some(files),
        read[n - 1] is None ==> record_after(graph, compiled, read, n) == record_after(
            graph,
            compiled,
            read,
            n - 1,
        ),
        record_after(graph, compiled, read, 0) == graph,
{
    if let Some(files) = read[n - 1] {
        incremental::law_recording_an_object(
            record_after(graph, compiled, read, n - 1),
            compiled[n - 1],
            files,
            0,
        );
    }
}

/// A test is built with the settings of its parent, its own sources, and its own
/// includes and flags behind those of the parent; it goes into a directory of its own
/// below the parent's binaries.
pub proof fn law_how_tests_are_built(
    parent: ProjectV,
    name: Seq<char>,
    test: TestV,
    profile: Option<Seq<char>>,
)
    ensures
        test_project_of(parent, name, test, profile) is Err <==> test.src is None,
        test_project_of(parent, name, test, profile) matches Ok(t) ==> {
            let c = if parent.compile is Some {
                parent.compile->0
            } else {
                proj_parse::no_compile()
            };
            let bin = if parent.output is Some && parent.output->0.bin is Some {
                parent.output->0.bin->0
            } else {
                "bin"@
            };
            &&& t.name == name && t.language == parent.language
            &&& t.ty == ProjectType::Binary && t.link == Linkage::Dynamic
            &&& t.tests is None && t.siblings is None && t.artifact is None
            &&& t.compile is Some
            &&& t.compile->0.src == test.src
            &&& t.compile->0.cc == c.cc && t.compile->0.linker == c.linker
            &&& t.compile->0.standard == c.standard && t.compile->0.arch == c.arch
            &&& t.compile->0.threads == c.threads
            &&& proj_parse::follows(t.compile->0.includes, c.includes, test.includes)
            &&& proj_parse::follows(t.compile->0.c_flags, c.c_flags, test.c_flags)
            &&& proj_parse::follows(t.compile->0.ld_flags, c.ld_flags, test.ld_flags)
            &&& t.output matches Some(o) && o.bin == Some(paths::joined(bin, name))
            &&& t.output->0.symlink_binaries == (if parent.output is Some {
                parent.output->0.symlink_binaries
            } else {
                None
            })
            &&& t.dependencies is Some
            &&& forall|other: Seq<char>|
                other != parent.name && parent.dependencies is Some ==> #[trigger] names::lookup(
                    t.dependencies->0,
                    other,
                ) == names::lookup(parent.dependencies->0, other)
            &&& names::lookup(t.dependencies->0, parent.name) matches Some(d) && d.local == Some(
                "."@,
            ) && d.build == Some(BuildSystemV::Conjure(None))
        },
{
    let c = proj_parse::compile_or_none(parent.compile);
    proj_parse::law_folds(c.includes, test.includes);
    proj_parse::law_folds(c.c_flags, test.c_flags);
    proj_parse::law_folds(c.ld_flags, test.ld_flags);
    let deps = table_or_empty(parent.dependencies);
    names::law_put(deps, parent.name, parent_dependency(), parent.name);
    assert forall|other: Seq<char>|
        other != parent.name && parent.dependencies is Some implies #[trigger] names::lookup(
        names::put(deps, parent.name, parent_dependency()),
        other,
    ) == names::lookup(parent.dependencies->0, other) by {
        names::law_put(deps, parent.name, parent_dependency(), other);
    }
}

/// A profile for a test keeps every setting and flag, and loses only what would make
/// the test something else.
pub proof fn law_profiles_of_tests(p: ProfileV)
    ensures
        ({
            let t = test_profile_of(p);
            &&& t.ty is None && t.link is None && t.src is None && t.tests is None
            &&& t.artifact is None && t.generate_pc is None
            &&& t.cc == p.cc && t.linker == p.linker && t.standard == p.standard
            &&& t.arch == p.arch && t.threads == p.threads
            &&& t.includes == p.includes && t.c_flags == p.c_flags && t.ld_flags == p.ld_flags
            &&& t.dependencies == p.dependencies && t.extends == p.extends
        }),
{
}

/// Which tests are built: all of them where none is named, else those that are named;
/// in the order of their names.
pub proof fn law_which_tests_are_built(
    p: ProjectV,
    profile: Option<Seq<char>>,
    wants: Seq<Seq<char>>,
    name: Seq<char>,
)
    ensures
        tests_to_build(p, profile, wants).contains(name) <==> (deps::effective_under(
            p,
            profile,
        ).tests is Some && names::holds(deps::effective_under(p, profile).tests->0, name)) && (
        wants.len() == 0 || wants.contains(name)),
{
    let tests = tests_under(p, profile);
    let keys = names::keys(tests);
    let sorted = order::sorted(keys);
    let pred = |n: Seq<char>| wants.len() == 0 || wants.contains(n);
    let v = sorted.filter(pred);
    order::law_sorted(keys);
    names::lemma_holds(tests, name);
    if v.contains(name) {
        let i = choose|i: int| 0 <= i < v.len() && v[i] == name;
        sorted.lemma_filter_pred(pred, i);
        sorted.lemma_filter_contains_rev(pred, name);
    }
    if sorted.contains(name) && pred(name) {
        let i = choose|i: int| 0 <= i < sorted.len() && sorted[i] == name;
        sorted.lemma_filter_contains(pred, i);
    }
}

/// Tests are refused exactly where there are none, where the project is no library
/// under the profile, or where one that is named does not exist.
pub proof fn law_when_tests_are_refused(
    p: ProjectV,
    profile: Option<Seq<char>>,
    wants: Seq<Seq<char>>,
)
    ensures
        ({
            let e = deps::effective_under(p, profile);
            let some = e.tests is Some && e.tests->0.len() > 0;
            tests_fault(p, profile, wants) is None <==> some && e.ty == ProjectType::Library
                && forall|i: int|
                0 <= i < wants.len() ==> names::holds(e.tests->0, #[trigger] wants[i])
        }),
{
    lemma_first_missing(tests_under(p, profile), wants);
}

proof fn lemma_first_missing<V>(m: Seq<(Seq<char>, V)>, wants: Seq<Seq<char>>)
    ensures
        first_missing(m, wants) is None <==> forall|i: int|
            0 <= i < wants.len() ==> names::holds(m, #[trigger] wants[i]),
        first_missing(m, wants) matches Some(w) ==> wants.contains(w) && !names::holds(m, w),
    decreases wants.len(),
{
    if wants.len() > 0 {
        let rest = wants.skip(1);
        lemma_first_missing(m, rest);
        if names::holds(m, wants[0]) {
            if first_missing(m, rest) is None {
                assert forall|i: int| 0 <= i < wants.len() implies names::holds(
                    m,
                    #[trigger] wants[i],
                ) by {
                    if i > 0 {
                        assert(rest[i - 1] == wants[i]);
                    }
                }
            } else {
                let w = first_missing(m, rest)->0;
                let k = choose|k: int| 0 <= k < rest.len() && rest[k] == w;
                assert(wants[k + 1] == w);
            }
        } else {
            assert(wants[0] == first_missing(m, wants)->0);
        }
    }
}

/// What is built together: the project first, and then every sibling once, in the
/// order of their paths - or the project alone.
pub proof fn law_what_is_built_together(p: ProjectV, root: Seq<char>)
    ensures
        directories(p, root, false).len() == 1 && directories(p, root, false)[0] == root,
        ({
            let d = directories(p, root, true);
            let s = if p.siblings is Some {
                p.siblings->0
            } else {
                Seq::empty()
            };
            let paths = Seq::new(s.len(), |i: int| s[i].1);
            let sorted = order::sorted(paths);
            &&& d.len() == 1 + s.len() && d[0] == root
            &&& forall|i: int|
                0 <= i < s.len() ==> #[trigger] d[i + 1] == paths::joined(root, sorted[i])
        }),
{
    let s = table_or_empty(p.siblings);
    let paths = Seq::new(s.len(), |i: int| s[i].1);
    assert(s.map_values(|e: (Seq<char>, Seq<char>)| e.1) =~= paths);
    order::law_sorted(paths);
}

/// The compile database begins with the project itself, as it is built under the
/// profile.
pub proof fn law_database_begins_with_the_project(p: ProjectV, profile: Option<Seq<char>>)
    ensures
        database_of(p, profile).0.len() > 0,
        database_of(p, profile).0[0].0 == deps::effective_under(p, profile),
        database_of(p, profile).0[0].1 == deps::profile_built(p, profile),
{
}

/// What is said of tests that are not built: which one, and what is wrong.
pub proof fn law_tests_are_named_in_reports(
    p: ProjectV,
    name: Seq<char>,
    test: TestV,
    profile: Option<Seq<char>>,
    wants: Seq<Seq<char>>,
)
    ensures
        test.src is None ==> (test_project_of(p, name, test, profile) matches Err(f) ==> f.message
            == "Test `"@ + name + "` has no `src`"@ && f.help == Some(
            "Test `"@ + name + "` must have a `src` specified"@,
        )),
        ({
            let e = deps::effective_under(p, profile);
            let some = e.tests is Some && e.tests->0.len() > 0;
            let f = tests_fault(p, profile, wants);
            &&& !some ==> f is Some && f->0.message == "No `tests` in conjure.kdl"@
            &&& some && e.ty != ProjectType::Library ==> f is Some && f->0.message == "`"@ + p.name
                + "` is not a library under this profile"@
            &&& some && e.ty == ProjectType::Library && f is Some ==> exists|w: Seq<char>|
                #[trigger] wants.contains(w) && !names::holds(e.tests->0, w) && f->0.message
                    == "test `"@ + w + "` not found"@
        }),
{
    lemma_first_missing(tests_under(p, profile), wants);
    let e = deps::effective_under(p, profile);
    if e.tests is Some && e.tests->0.len() > 0 && e.ty == ProjectType::Library && tests_fault(
        p,
        profile,
        wants,
    ) is Some {
        let w = first_missing(tests_under(p, profile), wants)->0;
        assert(wants.contains(w));
    }
}

} // verus!
