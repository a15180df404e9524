//! Source discovery and compilation.
//!
//! Turns a project's source roots into a set of compile commands, one per file.
//! The build and `compile_commands.json` are made from the same entries, so the
//! clangd database and the real build cannot drift.
//!
//! Object files are kept apart by profile under `.conjure/build/obj/<profile>/`
//! and named by the source's path relative to the project, so several profiles
//! coexist and a file's object is stable across runs.
use vstd::prelude::*;
use crate::deps;
use crate::diag;
use crate::diag::{Fault, FaultV};
use crate::paths;
use crate::proj_parse;
use crate::proj_parse::{Compile, CompileV, Language, Project, ProjectType, ProjectV, Linkage};
use crate::names;
use crate::text;
use crate::toolchain;
use crate::toolchain::{Host, Toolchain, ToolchainV};

verus! {

/// The extensions of C sources.
pub open spec fn c_srcs() -> Seq<Seq<char>> {
    seq!["c"@, "C"@]
}

/// The extensions of C++ sources.
pub open spec fn cpp_srcs() -> Seq<Seq<char>> {
    seq!["cpp"@, "cc"@, "cxx"@, "c++"@]
}

/// The extensions of a language's sources.
pub open spec fn source_exts(language: Language) -> Seq<Seq<char>> {
    match language {
        Language::C => c_srcs(),
        Language::Cpp => cpp_srcs(),
    }
}

/// The extensions of a language's sources.
pub fn exts_for(language: &Language) -> (out: Vec<String>)
    ensures
        text::texts(out@) == source_exts(*language),
{
    let mut out = text::none();
    match language {
        Language::C => {
            text::push_text(&mut out, "c");
            text::push_text(&mut out, "C");
            proof {
                assert(text::texts(out@) =~= c_srcs());
            }
        },
        Language::Cpp => {
            text::push_text(&mut out, "cpp");
            text::push_text(&mut out, "cc");
            text::push_text(&mut out, "cxx");
            text::push_text(&mut out, "c++");
            proof {
                assert(text::texts(out@) =~= cpp_srcs());
            }
        },
    }
    out
}

/// A single clangd and build entry: the compile invocation for one source.
#[derive(Debug)]
pub struct CompileEntry {
    pub directory: String,
    pub arguments: Vec<String>,
    pub file: String,
}

/// The model of a [`CompileEntry`].
pub struct CompileEntryV {
    pub directory: Seq<char>,
    pub arguments: Seq<Seq<char>>,
    pub file: Seq<char>,
}

impl View for CompileEntry {
    type V = CompileEntryV;

    open spec fn view(&self) -> CompileEntryV {
        CompileEntryV {
            directory: self.directory@,
            arguments: text::texts(self.arguments@),
            file: self.file@,
        }
    }
}

impl CompileEntry {
    /// The source that is compiled.
    pub fn source(&self) -> (out: &str)
        ensures
            out@ == self@.file,
    {
        self.file.as_str()
    }

    /// What the source is called in messages: the last part of its path.
    pub fn name(&self) -> (out: String)
        ensures
            out@ == text::last_part(self@.file, text::Cut::At('/')),
    {
        text::last_part_of(self.file.as_str(), text::Cut::At('/'))
    }
}

/// The model of a list of objects with their entries.
pub open spec fn entries_view(v: Seq<(String, CompileEntry)>) -> Seq<(Seq<char>, CompileEntryV)> {
    v.map_values(|e: (String, CompileEntry)| (e.0@, e.1@))
}

// ---------------------------------------------------------------------------
// Sources
// ---------------------------------------------------------------------------

/// Whether a file is wanted: its extension is one of `exts`. With no extensions
/// every file is wanted, which is how include trees are walked.
pub open spec fn wanted(path: Seq<char>, exts: Seq<Seq<char>>) -> bool {
    exts.len() == 0 || (paths::extension_of(path) matches Some(e) && exts.contains(e))
}

/// Whether a file is wanted.
pub fn is_wanted(path: &str, exts: &[String]) -> (res: bool)
    ensures
        res == wanted(path@, text::texts(exts@)),
{
    if exts.len() == 0 {
        return true;
    }
    match paths::extension(path) {
        Some(e) => text::has_text(exts, e.as_str()),
        None => false,
    }
}

/// The wanted ones of some files.
pub open spec fn wanted_files(files: Seq<Seq<char>>, exts: Seq<Seq<char>>) -> Seq<Seq<char>> {
    files.filter(|f: Seq<char>| wanted(f, exts))
}

/// Collect the files whose extension is in `exts`, out of all the files of a walk.
/// With no extensions every file is collected.
pub fn find_sources(files: &[String], exts: &[String], out: &mut Vec<String>)
    ensures
        text::texts(final(out)@) == text::texts(old(out)@) + wanted_files(
            text::texts(files@),
            text::texts(exts@),
        ),
{
    let ghost all = text::texts(files@);
    let ghost es = text::texts(exts@);
    let ghost before = text::texts(out@);
    let ghost pred = |f: Seq<char>| wanted(f, es);
    let mut i: usize = 0;
    proof {
        reveal(Seq::filter);
        assert(all.take(0) =~= Seq::empty());
        assert(before + Seq::empty() =~= before);
    }
    while i < files.len()
        invariant
            i <= files@.len(),
            all == text::texts(files@),
            es == text::texts(exts@),
            pred == (|f: Seq<char>| wanted(f, es)),
            text::texts(out@) == before + all.take(i as int).filter(pred),
        decreases files@.len() - i,
    {
        proof {
            reveal(Seq::filter);
            assert(all.take(i + 1).drop_last() =~= all.take(i as int));
            assert(all.take(i + 1).last() == files@[i as int]@);
        }
        let ghost kept = all.take(i as int).filter(pred);
        if is_wanted(files[i].as_str(), exts) {
            text::push_text(out, files[i].as_str());
            proof {
                assert(before + kept.push(files@[i as int]@) =~= (before + kept).push(
                    files@[i as int]@,
                ));
            }
        }
        i += 1;
    }
    proof {
        assert(all.take(i as int) =~= all);
    }
}

/// What a source root turned out to be.
#[derive(Debug)]
pub enum Found {
    /// A file.
    File,
    /// A directory, with all the files below it.
    Directory(Vec<String>),
}

/// The model of a [`Found`].
pub enum FoundV {
    File,
    Directory(Seq<Seq<char>>),
}

impl View for Found {
    type V = FoundV;

    open spec fn view(&self) -> FoundV {
        match *self {
            Found::File => FoundV::File,
            Found::Directory(files) => FoundV::Directory(text::texts(files@)),
        }
    }
}

/// The model of a list of [`Found`]s.
pub open spec fn found_view(v: Seq<Found>) -> Seq<FoundV> {
    v.map_values(|f: Found| f@)
}

/// The sources under one root: a file is taken as named, a directory gives the
/// wanted files below it.
pub open spec fn root_sources(path: Seq<char>, found: FoundV, exts: Seq<Seq<char>>) -> Seq<
    Seq<char>,
> {
    match found {
        FoundV::File => seq![path],
        FoundV::Directory(files) => wanted_files(files, exts),
    }
}

/// The sources under the first `n` roots.
pub open spec fn collected(
    root: Seq<char>,
    roots: Seq<Seq<char>>,
    found: Seq<FoundV>,
    exts: Seq<Seq<char>>,
    n: int,
) -> Seq<Seq<char>>
    decreases n,
{
    if n <= 0 {
        Seq::empty()
    } else {
        collected(root, roots, found, exts, n - 1) + root_sources(
            paths::joined(root, roots[n - 1]),
            found[n - 1],
            exts,
        )
    }
}

/// Expand a project's source roots into files: a directory gives the files found
/// below it, and an exact-file root is taken as named, with no extension filter.
pub fn collect_sources(root: &str, roots: &[String], found: &[Found], exts: &[String]) -> (out: Vec<
    String,
>)
    requires
        roots@.len() == found@.len(),
    ensures
        text::texts(out@) == collected(
            root@,
            text::texts(roots@),
            found_view(found@),
            text::texts(exts@),
            roots@.len() as int,
        ),
{
    let ghost rs = text::texts(roots@);
    let ghost fs = found_view(found@);
    let ghost es = text::texts(exts@);
    let mut out = text::none();
    let mut i: usize = 0;
    while i < roots.len()
        invariant
            i <= roots@.len() == found@.len(),
            rs == text::texts(roots@),
            fs == found_view(found@),
            es == text::texts(exts@),
            text::texts(out@) == collected(root@, rs, fs, es, i as int),
        decreases roots@.len() - i,
    {
        let path = paths::join(root, roots[i].as_str());
        let ghost before = text::texts(out@);
        proof {
            assert(rs[i as int] == roots@[i as int]@);
            assert(fs[i as int] == found@[i as int]@);
        }
        match &found[i] {
            Found::File => {
                text::push_text(&mut out, path.as_str());
                proof {
                    assert(before.push(path@) =~= before + seq![path@]);
                }
            },
            Found::Directory(files) => {
                find_sources(files.as_slice(), exts, &mut out);
            },
        }
        i += 1;
    }
    out
}

/// The roots of some tests' sources.
pub open spec fn test_roots(tests: Seq<(Seq<char>, proj_parse::TestV)>, root: Seq<char>) -> Seq<
    Seq<char>,
>
    decreases tests.len(),
{
    if tests.len() == 0 {
        Seq::empty()
    } else {
        test_roots(tests.drop_last(), root) + deps::joined_all(
            root,
            proj_parse::flags_or_none(tests.last().1.src),
        )
    }
}

/// The roots of a project's test sources.
pub open spec fn project_test_roots(p: ProjectV, root: Seq<char>) -> Seq<Seq<char>> {
    match p.tests {
        Some(tests) => test_roots(tests, root),
        None => Seq::empty(),
    }
}

/// The roots of the project's declared test sources. A project's own build skips
/// these, so its tests are not compiled into the artifact it produces.
pub fn test_source_roots(project: &Project, root: &str) -> (out: Vec<String>)
    ensures
        text::texts(out@) == project_test_roots(project@, root@),
{
    let mut out = text::none();
    if let Some(tests) = &project.tests {
        let mut i: usize = 0;
        proof {
            assert(tests@.take(0) =~= Seq::empty());
        }
        while i < tests.len()
            invariant
                i <= tests@.len(),
                text::texts(out@) == test_roots(tests@.take(i as int), root@),
            decreases tests@.len() - i,
        {
            proof {
                assert(tests@.take(i + 1).drop_last() =~= tests@.take(i as int));
                assert(tests@.take(i + 1).last() == tests@[i as int]);
            }
            let srcs = proj_parse::list_or_none(&tests.value_at(i).src);
            let all = deps::join_all(root, srcs.as_slice());
            text::extend_texts(&mut out, all.as_slice());
            i += 1;
        }
        proof {
            assert(tests@.take(i as int) =~= tests@);
        }
    }
    out
}

/// The sources of a project's own build: those under its roots, without those of
/// its tests.
pub open spec fn own_sources(p: ProjectV, c: CompileV, dir: Seq<char>, found: Seq<FoundV>) -> Seq<
    Seq<char>,
> {
    collected(
        dir,
        proj_parse::roots(c.src),
        found,
        source_exts(p.language),
        proj_parse::roots(c.src).len() as int,
    ).filter(|s: Seq<char>| !paths::below_any(s, project_test_roots(p, dir)))
}

fn drop_below(sources: &[String], bases: &[String]) -> (out: Vec<String>)
    ensures
        text::texts(out@) == text::texts(sources@).filter(
            |s: Seq<char>| !paths::below_any(s, text::texts(bases@)),
        ),
{
    let ghost all = text::texts(sources@);
    let ghost bs = text::texts(bases@);
    let ghost pred = |s: Seq<char>| !paths::below_any(s, bs);
    let mut out = text::none();
    let mut i: usize = 0;
    proof {
        reveal(Seq::filter);
        assert(all.take(0) =~= Seq::empty());
    }
    while i < sources.len()
        invariant
            i <= sources@.len(),
            all == text::texts(sources@),
            bs == text::texts(bases@),
            pred == (|s: Seq<char>| !paths::below_any(s, bs)),
            text::texts(out@) == all.take(i as int).filter(pred),
        decreases sources@.len() - i,
    {
        proof {
            reveal(Seq::filter);
            assert(all.take(i + 1).drop_last() =~= all.take(i as int));
            assert(all.take(i + 1).last() == sources@[i as int]@);
        }
        if !paths::is_below_any(sources[i].as_str(), bases) {
            text::push_text(&mut out, sources[i].as_str());
        }
        i += 1;
    }
    proof {
        assert(all.take(i as int) =~= all);
    }
    out
}

// ---------------------------------------------------------------------------
// Objects and commands
// ---------------------------------------------------------------------------

/// A path as one file name: its separators become underscores.
pub open spec fn flat(s: Seq<char>) -> Seq<char> {
    s.map_values(
        |c: char|
            if c == '/' || c == '\\' {
                '_'
            } else {
                c
            },
    )
}

fn flatten(s: &str) -> (out: String)
    ensures
        out@ == flat(s@),
{
    let mut out = String::new();
    let mut n: Ghost<int> = Ghost(0);
    for c in it: s.chars()
        invariant
            it.seq() == s@,
            n@ == it.index(),
            0 <= n@ <= s@.len(),
            out@ == flat(s@.take(n@)),
    {
        if c == '/' || c == '\\' {
            out.push('_');
        } else {
            out.push(c);
        }
        proof {
            assert(s@.take(n@ + 1) =~= s@.take(n@).push(c));
            assert(flat(s@.take(n@ + 1)) =~= flat(s@.take(n@)).push(out@.last()));
            n@ = n@ + 1;
        }
    }
    proof {
        assert(s@.take(n@) =~= s@);
    }
    out
}

/// Where the objects of a profile go.
pub open spec fn objects_dir(dir: Seq<char>, profile: Seq<char>) -> Seq<char> {
    paths::joined(
        paths::joined(paths::joined(paths::joined(dir, ".conjure"@), "build"@), "obj"@),
        profile,
    )
}

/// Where the objects of a profile go.
pub fn obj_dir(dir: &str, profile: &str) -> (out: String)
    ensures
        out@ == objects_dir(dir@, profile@),
{
    let a = paths::join(dir, ".conjure");
    let b = paths::join(a.as_str(), "build");
    let c = paths::join(b.as_str(), "obj");
    paths::join(c.as_str(), profile)
}

/// The object of a source: its path relative to the project as one file name,
/// with the toolchain's extension.
pub open spec fn object_for(
    tc: ToolchainV,
    dir: Seq<char>,
    profile: Seq<char>,
    src: Seq<char>,
) -> Seq<char> {
    let rel = match paths::stripped(src, dir) {
        Some(r) => r,
        None => src,
    };
    paths::extended(
        paths::joined(objects_dir(dir, profile), flat(rel)),
        toolchain::obj_ext_in(tc.dialect),
    )
}

fn object_of(tc: &Toolchain, dir: &str, objects: &str, src: &str, profile: &str) -> (out:
    String)
    requires
        objects@ == objects_dir(dir@, profile@),
    ensures
        out@ == object_for(tc@, dir@, profile@, src@),
{
    let rel = match paths::strip(src, dir) {
        Some(r) => r,
        None => src.to_owned(),
    };
    let name = flatten(rel.as_str());
    let path = paths::join(objects, name.as_str());
    let ext = tc.obj_ext();
    proof {
        reveal_strlit("o");
        reveal_strlit("obj");
    }
    paths::with_extension(path.as_str(), ext)
}

/// Include flags for some directories.
pub open spec fn include_flags(tc: ToolchainV, dirs: Seq<Seq<char>>) -> Seq<Seq<char>> {
    dirs.map_values(|d: Seq<char>| toolchain::include_arg_in(tc.dialect, d))
}

fn push_includes(tc: &Toolchain, dirs: &[String], args: &mut Vec<String>)
    ensures
        text::texts(final(args)@) == text::texts(old(args)@) + include_flags(
            tc@,
            text::texts(dirs@),
        ),
{
    let ghost all = text::texts(dirs@);
    let ghost before = text::texts(args@);
    let mut i: usize = 0;
    proof {
        assert(before + include_flags(tc@, all.take(0)) =~= before);
    }
    while i < dirs.len()
        invariant
            i <= dirs@.len(),
            all == text::texts(dirs@),
            text::texts(args@) == before + include_flags(tc@, all.take(i as int)),
        decreases dirs@.len() - i,
    {
        let a = tc.include_arg(dirs[i].as_str());
        text::push_text(args, a.as_str());
        proof {
            assert(all[i as int] == dirs@[i as int]@);
            assert(include_flags(tc@, all.take(i + 1)) =~= include_flags(
                tc@,
                all.take(i as int),
            ).push(a@));
            assert((before + include_flags(tc@, all.take(i as int))).push(a@) =~= before
                + include_flags(tc@, all.take(i + 1)));
        }
        i += 1;
    }
    proof {
        assert(all.take(i as int) =~= all);
    }
}

/// Whether a project's objects go into a shared library, and so have to be
/// position-independent.
pub open spec fn feeds_shared(p: ProjectV) -> bool {
    p.ty == ProjectType::Library && p.link != Linkage::Static
}

/// The part of a compile command that is the same for every source of a project:
/// the compiler, the target, the standard, the defaults, the includes of the
/// dependencies, what pkg-config gave, the project's own includes, the flag for
/// position-independent code, and the project's own flags.
pub open spec fn command_head(
    p: ProjectV,
    c: CompileV,
    tc: ToolchainV,
    dep_dirs: Seq<Seq<char>>,
    pkg_cflags: Seq<Seq<char>>,
) -> Seq<Seq<char>> {
    let d = tc.dialect;
    tc.cc + toolchain::arch_flags_in(d) + (match c.standard {
        Some(std) => toolchain::std_args_in(d, std),
        None => Seq::empty(),
    }) + toolchain::default_c_flags_in(d, p.language) + include_flags(tc, dep_dirs)
        + text::filled(pkg_cflags) + include_flags(tc, proj_parse::flags_or_none(c.includes))
        + (if feeds_shared(p) {
        toolchain::listed(toolchain::pic_flag_in(d))
    } else {
        Seq::empty()
    }) + text::filled(proj_parse::flags_or_none(c.c_flags))
}

fn head_of(
    project: &Project,
    compile: &Compile,
    tc: &Toolchain,
    dep_dirs: &[String],
    pkg_cflags: &[String],
) -> (out: Vec<String>)
    ensures
        text::texts(out@) == command_head(
            project@,
            compile@,
            tc@,
            text::texts(dep_dirs@),
            text::texts(pkg_cflags@),
        ),
{
    let ghost d = tc@.dialect;
    let mut out = text::copy_texts(tc.cc.as_slice());
    let arch = tc.arch_flags();
    text::extend_texts(&mut out, arch.as_slice());
    let ghost g2 = text::texts(out@);
    if let Some(std) = &compile.standard {
        let args = tc.std_args(std.as_str());
        text::extend_texts(&mut out, args.as_slice());
    } else {
        proof {
            assert(g2 + Seq::<Seq<char>>::empty() =~= g2);
        }
    }
    let defaults = tc.default_c_flags(&project.language);
    text::extend_texts(&mut out, defaults.as_slice());
    push_includes(tc, dep_dirs, &mut out);
    let pkg = text::filled_texts(pkg_cflags);
    text::extend_texts(&mut out, pkg.as_slice());
    let includes = proj_parse::list_or_none(&compile.includes);
    push_includes(tc, includes.as_slice(), &mut out);
    let ghost g3 = text::texts(out@);
    if project.is_library() && !project.want_static() {
        if let Some(pic) = tc.pic_flag() {
            text::push_text(&mut out, pic.as_str());
            proof {
                assert(g3.push(pic@) =~= g3 + seq![pic@]);
            }
        } else {
            proof {
                assert(g3 + Seq::<Seq<char>>::empty() =~= g3);
            }
        }
    } else {
        proof {
            assert(g3 + Seq::<Seq<char>>::empty() =~= g3);
        }
    }
    let flags = proj_parse::list_or_none(&compile.c_flags);
    let own = text::filled_texts(flags.as_slice());
    text::extend_texts(&mut out, own.as_slice());
    out
}

/// The entry of one source: its object, and the command that makes it.
pub open spec fn entry_for(
    tc: ToolchainV,
    head: Seq<Seq<char>>,
    dir: Seq<char>,
    profile: Seq<char>,
    depfiles: bool,
    src: Seq<char>,
) -> (Seq<char>, CompileEntryV) {
    let obj = object_for(tc, dir, profile, src);
    (
        obj,
        CompileEntryV {
            directory: dir,
            arguments: head + (if depfiles {
                toolchain::depfile_in(tc.dialect, obj).1
            } else {
                Seq::empty()
            }) + toolchain::compile_tail_in(tc.dialect, src, obj),
            file: paths::joined(dir, src),
        },
    )
}

/// The entries of a project's own build.
pub open spec fn entries_for(
    p: ProjectV,
    c: CompileV,
    dir: Seq<char>,
    cache_root: Seq<char>,
    profile: Seq<char>,
    pkg_cflags: Seq<Seq<char>>,
    depfiles: bool,
    found: Seq<FoundV>,
    host: Host,
) -> Seq<(Seq<char>, CompileEntryV)> {
    let tc = toolchain::toolchain_of(c, p.language, host);
    let head = command_head(p, c, tc, deps::include_dirs(p, dir, cache_root), pkg_cflags);
    own_sources(p, c, dir, found).map_values(
        |src: Seq<char>| entry_for(tc, head, dir, profile, depfiles, src),
    )
}

/// Why a project's sources cannot be compiled.
pub open spec fn compile_fault(p: ProjectV, dir: Seq<char>, found: Seq<FoundV>) -> Option<FaultV> {
    match p.compile {
        None => Some(diag::plain("No compile section in conjure.kdl"@)),
        Some(c) => if own_sources(p, c, dir, found).len() == 0 {
            Some(
                diag::hinted(
                    "No source files found in src/"@,
                    "Make a main.c or main.cpp file in src/"@,
                ),
            )
        } else {
            None
        },
    }
}

/// Build the compile invocation for every source in `project`.
///
/// `dir` is the project's directory, against which sources and objects resolve;
/// `cache_root` is the invocation root, used only to find dependency include
/// dirs. `found` is what each of the project's source roots turned out to be. Each
/// object comes with its entry, so the objects can be passed straight to the
/// linker.
pub fn compile_entries(
    dir: &str,
    cache_root: &str,
    project: &Project,
    profile: &str,
    pkg_cflags: &[String],
    depfiles: bool,
    found: &[Found],
    host: &Host,
) -> (out: Result<Vec<(String, CompileEntry)>, Fault>)
    requires
        project@.compile matches Some(c) ==> proj_parse::roots(c.src).len() == found@.len(),
    ensures
        match out {
            Ok(v) => compile_fault(project@, dir@, found_view(found@)) is None && entries_view(v@)
                == entries_for(
                project@,
                project@.compile->0,
                dir@,
                cache_root@,
                profile@,
                text::texts(pkg_cflags@),
                depfiles,
                found_view(found@),
                *host,
            ),
            Err(e) => compile_fault(project@, dir@, found_view(found@)) == Some(e@),
        },
{
    let compile = match &project.compile {
        Some(c) => c,
        None => return Err(Fault::plain("No compile section in conjure.kdl".to_owned())),
    };
    let exts = exts_for(&project.language);
    let roots = compile.src_roots();
    let collected_all = collect_sources(dir, roots.as_slice(), found, exts.as_slice());
    let excludes = test_source_roots(project, dir);
    let sources = drop_below(collected_all.as_slice(), excludes.as_slice());
    if sources.len() == 0 {
        return Err(
            Fault::hinted(
                "No source files found in src/".to_owned(),
                "Make a main.c or main.cpp file in src/",
            ),
        );
    }
    let tc = toolchain::resolve(compile, &project.language, host);
    let dep_dirs = deps::dep_include_dirs(project, dir, cache_root);
    let head = head_of(project, compile, &tc, dep_dirs.as_slice(), pkg_cflags);
    let objects = obj_dir(dir, profile);
    let ghost hv = text::texts(head@);
    let ghost all = text::texts(sources@);
    let ghost make = |src: Seq<char>| entry_for(tc@, hv, dir@, profile@, depfiles, src);
    let mut out: Vec<(String, CompileEntry)> = Vec::new();
    let mut i: usize = 0;
    proof {
        assert(entries_view(out@) =~= all.take(0).map_values(make));
    }
    while i < sources.len()
        invariant
            i <= sources@.len(),
            all == text::texts(sources@),
            hv == text::texts(head@),
            make == (|src: Seq<char>| entry_for(tc@, hv, dir@, profile@, depfiles, src)),
            objects@ == objects_dir(dir@, profile@),
            entries_view(out@) == all.take(i as int).map_values(make),
        decreases sources@.len() - i,
    {
        let src = sources[i].as_str();
        let obj = object_of(&tc, dir, objects.as_str(), src, profile);
        let mut arguments = text::copy_texts(head.as_slice());
        if depfiles {
            let dep = tc.depfile(obj.as_str());
            text::extend_texts(&mut arguments, dep.1.as_slice());
        } else {
            proof {
                assert(hv + Seq::<Seq<char>>::empty() =~= hv);
            }
        }
        let tail = tc.compile_tail(src, obj.as_str());
        text::extend_texts(&mut arguments, tail.as_slice());
        let file = paths::join(dir, src);
        let entry = CompileEntry { directory: dir.to_owned(), arguments, file };
        let ghost pair = (obj@, entry@);
        let ghost before = out@;
        out.push((obj, entry));
        proof {
            assert(all[i as int] == src@);
            assert(pair == make(src@));
            assert(entries_view(out@) =~= entries_view(before).push(pair));
            assert(all.take(i + 1).map_values(make) =~= all.take(i as int).map_values(make).push(
                make(src@),
            ));
        }
        i += 1;
    }
    proof {
        assert(all.take(i as int) =~= all);
    }
    Ok(out)
}

/// The database and the build do not drift: an entry for clangd names the same
/// object, directory and file as the entry of a build, and its command is that of
/// the build without the flags that ask for a depfile.
pub proof fn law_database_matches_the_build(
    p: ProjectV,
    c: CompileV,
    dir: Seq<char>,
    cache_root: Seq<char>,
    profile: Seq<char>,
    pkg_cflags: Seq<Seq<char>>,
    found: Seq<FoundV>,
    host: Host,
    i: int,
)
    requires
        0 <= i < own_sources(p, c, dir, found).len(),
    ensures
        ({
            let tc = toolchain::toolchain_of(c, p.language, host);
            let head = command_head(p, c, tc, deps::include_dirs(p, dir, cache_root), pkg_cflags);
            let src = own_sources(p, c, dir, found)[i];
            let obj = object_for(tc, dir, profile, src);
            let tail = toolchain::compile_tail_in(tc.dialect, src, obj);
            let built = entries_for(p, c, dir, cache_root, profile, pkg_cflags, true, found, host);
            let listed = entries_for(p, c, dir, cache_root, profile, pkg_cflags, false, found, host);
            &&& built.len() == listed.len() == own_sources(p, c, dir, found).len()
            &&& built[i].0 == obj
            &&& listed[i].0 == obj
            &&& built[i].1.file == listed[i].1.file
            &&& built[i].1.directory == listed[i].1.directory
            &&& built[i].1.arguments == head + toolchain::depfile_in(tc.dialect, obj).1 + tail
            &&& listed[i].1.arguments == head + tail
        }),
{
    let tc = toolchain::toolchain_of(c, p.language, host);
    let head = command_head(p, c, tc, deps::include_dirs(p, dir, cache_root), pkg_cflags);
    assert(head + Seq::<Seq<char>>::empty() =~= head);
}

/// No test source is compiled into the project's own artifact.
pub proof fn law_tests_stay_out(
    p: ProjectV,
    c: CompileV,
    dir: Seq<char>,
    found: Seq<FoundV>,
    src: Seq<char>,
)
    requires
        paths::below_any(src, project_test_roots(p, dir)),
    ensures
        !own_sources(p, c, dir, found).contains(src),
{
    let all = collected(
        dir,
        proj_parse::roots(c.src),
        found,
        source_exts(p.language),
        proj_parse::roots(c.src).len() as int,
    );
    let pred = |s: Seq<char>| !paths::below_any(s, project_test_roots(p, dir));
    broadcast use vstd::seq_lib::group_filter_ensures;

    if own_sources(p, c, dir, found).contains(src) {
        let k = choose|k: int|
            0 <= k < own_sources(p, c, dir, found).len() && own_sources(p, c, dir, found)[k] == src;
        assert(pred(all.filter(pred)[k]));
    }
}

// ---------------------------------------------------------------------------
// What is compiled, and how
// ---------------------------------------------------------------------------

/// Whether a file is a source that a root gives: the root itself where it is a file,
/// or a file below it with an extension of the language.
pub open spec fn is_source_of(
    src: Seq<char>,
    path: Seq<char>,
    found: FoundV,
    language: Language,
) -> bool {
    match found {
        FoundV::File => src == path,
        FoundV::Directory(files) => files.contains(src) && (paths::extension_of(src) matches Some(e)
            && match language {
            Language::C => e == "c"@ || e == "C"@,
            Language::Cpp => e == "cpp"@ || e == "cc"@ || e == "cxx"@ || e == "c++"@,
        }),
    }
}

/// Whether a file belongs to a test of a project.
pub open spec fn belongs_to_a_test(p: ProjectV, dir: Seq<char>, src: Seq<char>) -> bool {
    p.tests matches Some(tests) && exists|k: int, j: int|
        0 <= k < tests.len() && 0 <= j < proj_parse::given(tests[k].1.src).len()
            && #[trigger] paths::below(
            src,
            paths::joined(dir, proj_parse::given(tests[k].1.src)[j]),
        )
}

proof fn lemma_test_roots(tests: Seq<(Seq<char>, proj_parse::TestV)>, dir: Seq<char>, src: Seq<char>)
    ensures
        paths::below_any(src, test_roots(tests, dir)) <==> exists|k: int, j: int|
            0 <= k < tests.len() && 0 <= j < proj_parse::given(tests[k].1.src).len()
                && #[trigger] paths::below(
                src,
                paths::joined(dir, proj_parse::given(tests[k].1.src)[j]),
            ),
    decreases tests.len(),
{
    if tests.len() > 0 {
        let front = tests.drop_last();
        let n = tests.len() - 1;
        let last = proj_parse::given(tests[n].1.src);
        lemma_test_roots(front, dir, src);
        proj_parse::law_lists_give_their_items(tests[n].1.src);
        let a = test_roots(front, dir);
        let b = deps::joined_all(dir, last);
        let all = test_roots(tests, dir);
        assert(all == a + b);
        if paths::below_any(src, all) {
            let i = choose|i: int| 0 <= i < all.len() && #[trigger] paths::below(src, all[i]);
            if i < a.len() {
                assert(paths::below(src, a[i]));
                let (k, j) = choose|k: int, j: int|
                    0 <= k < front.len() && 0 <= j < proj_parse::given(front[k].1.src).len()
                        && #[trigger] paths::below(
                        src,
                        paths::joined(dir, proj_parse::given(front[k].1.src)[j]),
                    );
                assert(paths::below(src, paths::joined(dir, proj_parse::given(tests[k].1.src)[j])));
            } else {
                let j = i - a.len();
                assert(all[i] == paths::joined(dir, last[j]));
                assert(paths::below(src, paths::joined(dir, proj_parse::given(tests[n].1.src)[j])));
            }
        }
        if exists|k: int, j: int|
            0 <= k < tests.len() && 0 <= j < proj_parse::given(tests[k].1.src).len()
                && #[trigger] paths::below(
                src,
                paths::joined(dir, proj_parse::given(tests[k].1.src)[j]),
            ) {
            let (k, j) = choose|k: int, j: int|
                0 <= k < tests.len() && 0 <= j < proj_parse::given(tests[k].1.src).len()
                    && #[trigger] paths::below(
                    src,
                    paths::joined(dir, proj_parse::given(tests[k].1.src)[j]),
                );
            if k < n {
                assert(paths::below(src, paths::joined(dir, proj_parse::given(front[k].1.src)[j])));
                let i = choose|i: int| 0 <= i < a.len() && #[trigger] paths::below(src, a[i]);
                assert(all[i] == a[i]);
                assert(paths::below(src, all[i]));
            } else {
                assert(all[a.len() + j] == paths::joined(dir, last[j]));
                assert(paths::below(src, all[a.len() + j]));
            }
        }
    } else {
        assert(test_roots(tests, dir) =~= Seq::empty());
    }
}

proof fn lemma_exts(src: Seq<char>, path: Seq<char>, found: FoundV, language: Language)
    ensures
        root_sources(path, found, source_exts(language)).contains(src) <==> is_source_of(
            src,
            path,
            found,
            language,
        ),
{
    let exts = source_exts(language);
    match found {
        FoundV::File => {
            assert(seq![path][0] == path);
        },
        FoundV::Directory(files) => {
            let pred = |f: Seq<char>| wanted(f, exts);
            let v = files.filter(pred);
            assert(exts.len() > 0);
            match language {
                Language::C => {
                    assert(exts[0] == "c"@ && exts[1] == "C"@ && exts.len() == 2);
                },
                Language::Cpp => {
                    assert(exts[0] == "cpp"@ && exts[1] == "cc"@ && exts[2] == "cxx"@ && exts[3]
                        == "c++"@ && exts.len() == 4);
                },
            }
            if v.contains(src) {
                let i = choose|i: int| 0 <= i < v.len() && v[i] == src;
                files.lemma_filter_pred(pred, i);
                files.lemma_filter_contains_rev(pred, src);
            }
            if is_source_of(src, path, found, language) {
                let i = choose|i: int| 0 <= i < files.len() && files[i] == src;
                assert(wanted(src, exts));
                files.lemma_filter_contains(pred, i);
            }
        },
    }
}

proof fn lemma_collected(
    root: Seq<char>,
    roots: Seq<Seq<char>>,
    found: Seq<FoundV>,
    language: Language,
    n: int,
    src: Seq<char>,
)
    requires
        0 <= n <= roots.len(),
        roots.len() == found.len(),
    ensures
        collected(root, roots, found, source_exts(language), n).contains(src) <==> exists|k: int|
            0 <= k < n && is_source_of(
                src,
                paths::joined(root, roots[k]),
                #[trigger] found[k],
                language,
            ),
    decreases n,
{
    if n > 0 {
        let exts = source_exts(language);
        lemma_collected(root, roots, found, language, n - 1, src);
        let path = paths::joined(root, roots[n - 1]);
        lemma_exts(src, path, found[n - 1], language);
        let a = collected(root, roots, found, exts, n - 1);
        let b = root_sources(path, found[n - 1], exts);
        let all = a + b;
        if all.contains(src) {
            let i = choose|i: int| 0 <= i < all.len() && all[i] == src;
            if i < a.len() {
                assert(a[i] == src);
            } else {
                assert(b[i - a.len()] == src);
            }
        }
        if a.contains(src) {
            let i = choose|i: int| 0 <= i < a.len() && a[i] == src;
            assert(all[i] == src);
        }
        if b.contains(src) {
            let i = choose|i: int| 0 <= i < b.len() && b[i] == src;
            assert(all[a.len() + i] == src);
        }
    }
}

/// A project compiles exactly the sources that its roots give and that do not belong
/// to one of its tests.
pub proof fn law_what_is_compiled(
    p: ProjectV,
    c: CompileV,
    dir: Seq<char>,
    found: Seq<FoundV>,
    src: Seq<char>,
)
    requires
        found.len() == proj_parse::roots(c.src).len(),
    ensures
        own_sources(p, c, dir, found).contains(src) <==> !belongs_to_a_test(p, dir, src) && exists|
            k: int,
        |
            0 <= k < found.len() && is_source_of(
                src,
                paths::joined(dir, proj_parse::roots(c.src)[k]),
                #[trigger] found[k],
                p.language,
            ),
{
    let roots = proj_parse::roots(c.src);
    let all = collected(dir, roots, found, source_exts(p.language), roots.len() as int);
    let pred = |s: Seq<char>| !paths::below_any(s, project_test_roots(p, dir));
    let own = all.filter(pred);
    lemma_collected(dir, roots, found, p.language, roots.len() as int, src);
    if let Some(tests) = p.tests {
        lemma_test_roots(tests, dir, src);
    }
    if own.contains(src) {
        let i = choose|i: int| 0 <= i < own.len() && own[i] == src;
        all.lemma_filter_pred(pred, i);
        all.lemma_filter_contains_rev(pred, src);
    }
    if all.contains(src) && pred(src) {
        let i = choose|i: int| 0 <= i < all.len() && all[i] == src;
        all.lemma_filter_contains(pred, i);
    }
}

/// The roots of a project follow each other, and the files of a directory stay in
/// the order in which they were found.
pub proof fn law_sources_keep_their_order(
    root: Seq<char>,
    roots: Seq<Seq<char>>,
    found: Seq<FoundV>,
    more: Seq<Seq<char>>,
    more_found: Seq<FoundV>,
    language: Language,
    files: Seq<Seq<char>>,
    name: Seq<char>,
)
    requires
        roots.len() == found.len(),
        more.len() == more_found.len(),
        forall|i: int|
            0 <= i < files.len() ==> is_source_of(
                #[trigger] files[i],
                name,
                FoundV::Directory(files),
                language,
            ),
    ensures
        ({
            let exts = source_exts(language);
            &&& collected(
                root,
                roots + more,
                found + more_found,
                exts,
                (roots.len() + more.len()) as int,
            ) == collected(root, roots, found, exts, roots.len() as int) + collected(
                root,
                more,
                more_found,
                exts,
                more.len() as int,
            )
            &&& collected(root, seq![name], seq![FoundV::Directory(files)], exts, 1) == files
            &&& collected(root, seq![name], seq![FoundV::File], exts, 1) == seq![
                paths::joined(root, name),
            ]
        }),
{
    let exts = source_exts(language);
    lemma_collected_sum(root, roots, found, more, more_found, exts, more.len() as int);
    let none = Seq::<Seq<char>>::empty();
    let pred = |f: Seq<char>| wanted(f, exts);
    assert forall|i: int| 0 <= i < files.len() implies pred(#[trigger] files[i]) by {
        assert(is_source_of(files[i], name, FoundV::Directory(files), language));
        lemma_exts(files[i], name, FoundV::Directory(files), language);
        let v = files.filter(pred);
        let k = choose|k: int| 0 <= k < v.len() && v[k] == files[i];
        files.lemma_filter_pred(pred, k);
    }
    lemma_filter_all(files, pred);
    let one = seq![FoundV::Directory(files)];
    assert(collected(root, seq![name], one, exts, 0) =~= none);
    assert(one[0] == FoundV::Directory(files));
    assert(none + files =~= files);
    assert(collected(root, seq![name], one, exts, 1) =~= files);
    let file = seq![FoundV::File];
    assert(collected(root, seq![name], file, exts, 0) =~= none);
    assert(file[0] == FoundV::File);
    assert(collected(root, seq![name], file, exts, 1) =~= seq![paths::joined(root, name)]);
}

proof fn lemma_filter_all(v: Seq<Seq<char>>, pred: spec_fn(Seq<char>) -> bool)
    requires
        forall|i: int| 0 <= i < v.len() ==> pred(#[trigger] v[i]),
    ensures
        v.filter(pred) == v,
    decreases v.len(),
{
    reveal(Seq::filter);
    if v.len() > 0 {
        let front = v.drop_last();
        assert forall|i: int| 0 <= i < front.len() implies pred(#[trigger] front[i]) by {
            assert(pred(v[i]));
        }
        lemma_filter_all(front, pred);
        assert(pred(v[v.len() - 1]));
        assert(front.push(v.last()) =~= v);
    } else {
        assert(v.filter(pred) =~= v);
    }
}

proof fn lemma_collected_sum(
    root: Seq<char>,
    roots: Seq<Seq<char>>,
    found: Seq<FoundV>,
    more: Seq<Seq<char>>,
    more_found: Seq<FoundV>,
    exts: Seq<Seq<char>>,
    n: int,
)
    requires
        roots.len() == found.len(),
        more.len() == more_found.len(),
        0 <= n <= more.len(),
    ensures
        collected(root, roots + more, found + more_found, exts, roots.len() + n) == collected(
            root,
            roots,
            found,
            exts,
            roots.len() as int,
        ) + collected(root, more, more_found, exts, n),
    decreases n,
{
    let a = collected(root, roots, found, exts, roots.len() as int);
    if n > 0 {
        lemma_collected_sum(root, roots, found, more, more_found, exts, n - 1);
        let k = roots.len() + n - 1;
        assert((roots + more)[k] == more[n - 1]);
        assert((found + more_found)[k] == more_found[n - 1]);
        let b = collected(root, more, more_found, exts, n - 1);
        let last = root_sources(paths::joined(root, more[n - 1]), more_found[n - 1], exts);
        assert(a + b + last =~= a + (b + last));
    } else {
        lemma_collected_prefix(root, roots, found, more, more_found, exts, roots.len() as int);
        assert(a + Seq::<Seq<char>>::empty() =~= a);
    }
}

proof fn lemma_collected_prefix(
    root: Seq<char>,
    roots: Seq<Seq<char>>,
    found: Seq<FoundV>,
    more: Seq<Seq<char>>,
    more_found: Seq<FoundV>,
    exts: Seq<Seq<char>>,
    n: int,
)
    requires
        roots.len() == found.len(),
        0 <= n <= roots.len(),
    ensures
        collected(root, roots + more, found + more_found, exts, n) == collected(
            root,
            roots,
            found,
            exts,
            n,
        ),
    decreases n,
{
    if n > 0 {
        lemma_collected_prefix(root, roots, found, more, more_found, exts, n - 1);
        assert((roots + more)[n - 1] == roots[n - 1]);
        assert((found + more_found)[n - 1] == found[n - 1]);
    }
}

/// The object of a source is kept below the build directory of its project and
/// profile, under the source's path within the project as one file name.
pub proof fn law_where_objects_go(
    tc: ToolchainV,
    dir: Seq<char>,
    profile: Seq<char>,
    src: Seq<char>,
    name: Seq<char>,
)
    requires
        name.len() == (match paths::stripped(src, dir) {
            Some(r) => r,
            None => src,
        }).len(),
        forall|i: int|
            0 <= i < name.len() ==> ({
                let c = (match paths::stripped(src, dir) {
                    Some(r) => r,
                    None => src,
                })[i];
                #[trigger] name[i] == if c == '/' || c == '\\' {
                    '_'
                } else {
                    c
                }
            }),
    ensures
        object_for(tc, dir, profile, src) == paths::extended(
            paths::joined(
                paths::joined(
                    paths::joined(paths::joined(paths::joined(dir, ".conjure"@), "build"@), "obj"@),
                    profile,
                ),
                name,
            ),
            if tc.dialect is Gnu {
                "o"@
            } else {
                "obj"@
            },
        ),
{
    let rel = match paths::stripped(src, dir) {
        Some(r) => r,
        None => src,
    };
    assert(flat(rel) =~= name);
}

/// Words with a prefix each.
pub open spec fn prefixed(prefix: Seq<char>, words: Seq<Seq<char>>) -> Seq<Seq<char>> {
    words.map_values(|w: Seq<char>| prefix + w)
}

/// Every flag of a project's `c_flags` is passed to the compiler for every source, in
/// order, and behind everything but what names the depfile, the source and the
/// object - whatever the project's type, linkage and language.
pub proof fn law_every_c_flag_is_passed(
    p: ProjectV,
    c: CompileV,
    dir: Seq<char>,
    cache_root: Seq<char>,
    profile: Seq<char>,
    pkg_cflags: Seq<Seq<char>>,
    depfiles: bool,
    found: Seq<FoundV>,
    host: Host,
    i: int,
)
    requires
        0 <= i < own_sources(p, c, dir, found).len(),
    ensures
        ({
            let all = entries_for(
                p,
                c,
                dir,
                cache_root,
                profile,
                pkg_cflags,
                depfiles,
                found,
                host,
            );
            let args = all[i].1.arguments;
            let flags = proj_parse::given(c.c_flags);
            let d = toolchain::toolchain_of(c, p.language, host).dialect;
            let tail = (if d is Gnu {
                4int
            } else {
                3int
            }) + (if !depfiles {
                0int
            } else if d is Gnu {
                3int
            } else {
                2int
            });
            &&& all.len() == own_sources(p, c, dir, found).len()
            &&& args.len() >= flags.len() + tail
            &&& args.subrange(args.len() - tail - flags.len(), args.len() - tail) == flags
        }),
{
    let tc = toolchain::toolchain_of(c, p.language, host);
    let head = command_head(p, c, tc, deps::include_dirs(p, dir, cache_root), pkg_cflags);
    let flags = proj_parse::given(c.c_flags);
    proj_parse::law_lists_give_their_items(c.c_flags);
    let before = head.len() - flags.len();
    assert(head.subrange(before, head.len() as int) =~= flags);
    let all = entries_for(p, c, dir, cache_root, profile, pkg_cflags, depfiles, found, host);
    let args = all[i].1.arguments;
    assert(args.subrange(before, head.len() as int) =~= flags);
}

/// The command that makes an object with a gnu compiler, for every project: the
/// compiler; the target; the standard; the include directories of the dependencies;
/// what pkg-config gave; the project's own include directories; position-independent
/// code exactly for shared libraries; the project's flags; the depfile, where one is
/// asked for; the source and the object.
pub proof fn law_gnu_compile_command(
    p: ProjectV,
    c: CompileV,
    dir: Seq<char>,
    cache_root: Seq<char>,
    profile: Seq<char>,
    pkg_cflags: Seq<Seq<char>>,
    depfiles: bool,
    found: Seq<FoundV>,
    host: Host,
    i: int,
    arch: proj_parse::Arch,
)
    requires
        0 <= i < own_sources(p, c, dir, found).len(),
        toolchain::toolchain_of(c, p.language, host).dialect == toolchain::Dialect::Gnu(
            arch,
            host.os,
        ),
    ensures
        ({
            let (obj, entry) = entries_for(
                p,
                c,
                dir,
                cache_root,
                profile,
                pkg_cflags,
                depfiles,
                found,
                host,
            )[i];
            let src = own_sources(p, c, dir, found)[i];
            let tc = toolchain::toolchain_of(c, p.language, host);
            let nothing = Seq::<Seq<char>>::empty();
            let target = match arch {
                proj_parse::Arch::X86 => seq!["-m32"@],
                proj_parse::Arch::X86_64 => seq!["-m64"@],
                _ => nothing,
            };
            let standard = match c.standard {
                Some(s) => seq!["-std="@ + s],
                None => nothing,
            };
            let pic = if p.ty == ProjectType::Library && p.link == Linkage::Dynamic {
                seq!["-fPIC"@]
            } else {
                nothing
            };
            let depfile = if depfiles {
                seq!["-MMD"@, "-MF"@, obj + ".d"@]
            } else {
                nothing
            };
            &&& obj == object_for(tc, dir, profile, src)
            &&& entry.directory == dir
            &&& entry.file == paths::joined(dir, src)
            &&& entry.arguments == tc.cc + target + standard + prefixed(
                "-I"@,
                deps::include_dirs(p, dir, cache_root),
            ) + pkg_cflags.filter(|t: Seq<char>| t.len() > 0) + prefixed(
                "-I"@,
                proj_parse::given(c.includes),
            ) + pic + proj_parse::given(c.c_flags) + depfile + seq!["-c"@, src, "-o"@, obj]
        }),
{
    let tc = toolchain::toolchain_of(c, p.language, host);
    let dirs = deps::include_dirs(p, dir, cache_root);
    proj_parse::law_lists_give_their_items(c.includes);
    proj_parse::law_lists_give_their_items(c.c_flags);
    assert(include_flags(tc, dirs) =~= prefixed("-I"@, dirs));
    assert(include_flags(tc, proj_parse::given(c.includes)) =~= prefixed(
        "-I"@,
        proj_parse::given(c.includes),
    ));
    let nothing = Seq::<Seq<char>>::empty();
    let x = tc.cc + toolchain::arch_flags_in(tc.dialect) + (match c.standard {
        Some(std) => toolchain::std_args_in(tc.dialect, std),
        None => Seq::empty(),
    });
    assert(x + toolchain::default_c_flags_in(tc.dialect, p.language) =~= x);
    let src = own_sources(p, c, dir, found)[i];
    let all = entries_for(p, c, dir, cache_root, profile, pkg_cflags, depfiles, found, host);
    assert(all[i].0 == object_for(tc, dir, profile, src));
}

/// The command that makes an object with the MSVC compiler, for every project.
pub proof fn law_microsoft_compile_command(
    p: ProjectV,
    c: CompileV,
    dir: Seq<char>,
    cache_root: Seq<char>,
    profile: Seq<char>,
    pkg_cflags: Seq<Seq<char>>,
    depfiles: bool,
    found: Seq<FoundV>,
    host: Host,
    i: int,
)
    requires
        0 <= i < own_sources(p, c, dir, found).len(),
        toolchain::toolchain_of(c, p.language, host).dialect is Microsoft,
    ensures
        ({
            let (obj, entry) = entries_for(
                p,
                c,
                dir,
                cache_root,
                profile,
                pkg_cflags,
                depfiles,
                found,
                host,
            )[i];
            let src = own_sources(p, c, dir, found)[i];
            let tc = toolchain::toolchain_of(c, p.language, host);
            let nothing = Seq::<Seq<char>>::empty();
            let standard = match c.standard {
                Some(s) => seq!["/std:"@ + s],
                None => nothing,
            };
            let defaults = match p.language {
                Language::C => seq!["/nologo"@],
                Language::Cpp => seq!["/nologo"@, "/EHsc"@],
            };
            let depfile = if depfiles {
                seq!["/sourceDependencies"@, obj + ".json"@]
            } else {
                nothing
            };
            &&& obj == object_for(tc, dir, profile, src)
            &&& entry.directory == dir
            &&& entry.file == paths::joined(dir, src)
            &&& entry.arguments == tc.cc + standard + defaults + prefixed(
                "/I"@,
                deps::include_dirs(p, dir, cache_root),
            ) + pkg_cflags.filter(|t: Seq<char>| t.len() > 0) + prefixed(
                "/I"@,
                proj_parse::given(c.includes),
            ) + proj_parse::given(c.c_flags) + depfile + seq!["/c"@, src, "/Fo:"@ + obj]
        }),
{
    let tc = toolchain::toolchain_of(c, p.language, host);
    let dirs = deps::include_dirs(p, dir, cache_root);
    proj_parse::law_lists_give_their_items(c.includes);
    proj_parse::law_lists_give_their_items(c.c_flags);
    assert(include_flags(tc, dirs) =~= prefixed("/I"@, dirs));
    assert(include_flags(tc, proj_parse::given(c.includes)) =~= prefixed(
        "/I"@,
        proj_parse::given(c.includes),
    ));
    let nothing = Seq::<Seq<char>>::empty();
    assert(tc.cc + toolchain::arch_flags_in(tc.dialect) =~= tc.cc);
    let head = command_head(p, c, tc, dirs, pkg_cflags);
    let src = own_sources(p, c, dir, found)[i];
    let all = entries_for(p, c, dir, cache_root, profile, pkg_cflags, depfiles, found, host);
    assert(all[i].0 == object_for(tc, dir, profile, src));
    assert(toolchain::listed(toolchain::pic_flag_in(tc.dialect)) =~= nothing);
    let y = tc.cc + (match c.standard {
        Some(s) => seq!["/std:"@ + s],
        None => nothing,
    }) + toolchain::default_c_flags_in(tc.dialect, p.language) + prefixed("/I"@, dirs)
        + text::filled(pkg_cflags) + prefixed("/I"@, proj_parse::given(c.includes));
    assert(y + nothing =~= y);
    assert(head =~= y + proj_parse::given(c.c_flags));
}

/// A project can be compiled exactly where it has a compile section and a source.
pub proof fn law_what_cannot_be_compiled(p: ProjectV, dir: Seq<char>, found: Seq<FoundV>)
    ensures
        compile_fault(p, dir, found) is None <==> p.compile is Some && own_sources(
            p,
            p.compile->0,
            dir,
            found,
        ).len() > 0,
{
}

/// A project that cannot be compiled says why: it has no settings, or no sources.
pub proof fn law_why_nothing_is_compiled(p: ProjectV, dir: Seq<char>, found: Seq<FoundV>)
    ensures
        p.compile is None ==> compile_fault(p, dir, found) == Some(
            FaultV { message: "No compile section in conjure.kdl"@, help: None },
        ),
        p.compile is Some && own_sources(p, p.compile->0, dir, found).len() == 0 ==> compile_fault(
            p,
            dir,
            found,
        ) == Some(
            FaultV {
                message: "No source files found in src/"@,
                help: Some("Make a main.c or main.cpp file in src/"@),
            },
        ),
{
}

} // verus!
