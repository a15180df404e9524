//! Linking: where artifacts go, and the commands that make them.
//!
//! An artifact lies below `bin` or `lib` of the invocation root, in a directory of
//! its profile. Where several projects are built together, a directory of the
//! project's name comes in between, so that they do not collide.
use vstd::prelude::*;
use crate::paths;
use crate::proj_parse;
use crate::proj_parse::{Compile, CompileV, Linkage, Project, ProjectType, ProjectV};
use crate::text;
use crate::toolchain;
use crate::toolchain::{Host, LinkJob, LinkJobV, Os, Toolchain, ToolchainV};

verus! {

/// What a link is made from.
pub struct LinkInputs<'a> {
    pub objects: &'a [String],
    pub libs: &'a [String],
    pub extra_libs: &'a [String],
    pub ld_flags: &'a [String],
    pub compile: &'a Compile,
}

/// The model of [`LinkInputs`].
pub struct LinkInputsV {
    pub objects: Seq<Seq<char>>,
    pub libs: Seq<Seq<char>>,
    pub extra_libs: Seq<Seq<char>>,
    pub ld_flags: Seq<Seq<char>>,
    pub compile: CompileV,
}

impl<'a> View for LinkInputs<'a> {
    type V = LinkInputsV;

    open spec fn view(&self) -> LinkInputsV {
        LinkInputsV {
            objects: text::texts(self.objects@),
            libs: text::texts(self.libs@),
            extra_libs: text::texts(self.extra_libs@),
            ld_flags: text::texts(self.ld_flags@),
            compile: self.compile@,
        }
    }
}

/// Destination for one link step.
///
/// `dir` is the directory the linker runs in, so anything in the produced argv
/// that is not absolute resolves against it. `root` is where artifacts are scoped;
/// the top-level build keeps it equal to `dir`, siblings get the parent as `root`.
/// `out` may be absolute or relative to `dir`. `symlink` only applies to binaries:
/// after a successful link, a convenience link called after the project is put
/// into `root`.
pub struct LinkTarget<'a> {
    pub dir: &'a str,
    pub root: &'a str,
    pub out: &'a str,
    pub symlink: bool,
}

/// The model of a [`LinkTarget`].
pub struct LinkTargetV {
    pub dir: Seq<char>,
    pub root: Seq<char>,
    pub out: Seq<char>,
    pub symlink: bool,
}

impl<'a> View for LinkTarget<'a> {
    type V = LinkTargetV;

    open spec fn view(&self) -> LinkTargetV {
        LinkTargetV { dir: self.dir@, root: self.root@, out: self.out@, symlink: self.symlink }
    }
}

// ---------------------------------------------------------------------------
// Layout
// ---------------------------------------------------------------------------

/// The file name of a shared library.
pub open spec fn shared_name_on(os: Os, name: Seq<char>) -> Seq<char> {
    match os {
        Os::Windows => name + ".dll"@,
        Os::MacOs => "lib"@ + name + ".dylib"@,
        Os::Other => "lib"@ + name + ".so"@,
    }
}

/// The file name of a shared library.
pub fn shared_name(os: Os, name: &str) -> (out: String)
    ensures
        out@ == shared_name_on(os, name@),
{
    match os {
        Os::Windows => text::cat(name, ".dll"),
        Os::MacOs => text::cat3("lib", name, ".dylib"),
        Os::Other => text::cat3("lib", name, ".so"),
    }
}

/// The file name of a binary.
pub open spec fn exe_name_on(os: Os, name: Seq<char>) -> Seq<char> {
    match os {
        Os::Windows => name + ".exe"@,
        _ => name,
    }
}

/// The file name of a binary.
pub fn exe_name(os: Os, name: &str) -> (out: String)
    ensures
        out@ == exe_name_on(os, name@),
{
    match os {
        Os::Windows => text::cat(name, ".exe"),
        _ => name.to_owned(),
    }
}

/// Whether a project's artifacts get a directory of its own: it has siblings, or
/// it is not the project the build was started in.
pub open spec fn is_scoped(p: ProjectV, dir: Seq<char>, root: Seq<char>) -> bool {
    (p.siblings is Some && p.siblings->0.len() > 0) || !paths::same_path(dir, root)
}

/// Whether a project's artifacts get a directory of its own.
pub fn output_scoped(project: &Project, dir: &str, root: &str) -> (res: bool)
    ensures
        res == is_scoped(project@, dir@, root@),
{
    let several = match &project.siblings {
        Some(s) => !s.is_empty(),
        None => false,
    };
    several || !paths::is_same(dir, root)
}

/// The directory of a project's artifacts of one kind.
pub open spec fn artifact_dir(
    p: ProjectV,
    root: Seq<char>,
    kind: Seq<char>,
    profile: Seq<char>,
    scoped: bool,
) -> Seq<char> {
    let base = paths::joined(root, kind);
    if scoped {
        paths::joined(paths::joined(base, p.name), profile)
    } else {
        paths::joined(base, profile)
    }
}

fn artifact_dir_of(project: &Project, root: &str, kind: &str, profile: &str, scoped: bool) -> (out:
    String)
    ensures
        out@ == artifact_dir(project@, root@, kind@, profile@, scoped),
{
    let base = paths::join(root, kind);
    if scoped {
        let own = paths::join(base.as_str(), project.name.as_str());
        paths::join(own.as_str(), profile)
    } else {
        paths::join(base.as_str(), profile)
    }
}

/// The directory name for libraries.
pub open spec fn lib_kind(p: ProjectV) -> Seq<char> {
    match p.output {
        Some(o) => match o.lib {
            Some(l) => l,
            None => "lib"@,
        },
        None => "lib"@,
    }
}

/// The directory name for binaries.
pub open spec fn bin_kind(p: ProjectV) -> Seq<char> {
    match p.output {
        Some(o) => match o.bin {
            Some(b) => b,
            None => "bin"@,
        },
        None => "bin"@,
    }
}

fn lib_kind_of(project: &Project) -> (out: &str)
    ensures
        out@ == lib_kind(project@),
{
    match &project.output {
        Some(o) => match &o.lib {
            Some(l) => l.as_str(),
            None => "lib",
        },
        None => "lib",
    }
}

fn bin_kind_of(project: &Project) -> (out: &str)
    ensures
        out@ == bin_kind(project@),
{
    match &project.output {
        Some(o) => match &o.bin {
            Some(b) => b.as_str(),
            None => "bin",
        },
        None => "bin",
    }
}

/// The toolchain a project is built with.
pub open spec fn project_toolchain(p: ProjectV, host: Host) -> ToolchainV {
    toolchain::toolchain_of(proj_parse::compile_or_none(p.compile), p.language, host)
}

fn project_tools(project: &Project, host: &Host) -> (out: Toolchain)
    ensures
        out@ == project_toolchain(project@, *host),
{
    match &project.compile {
        Some(c) => toolchain::resolve(c, &project.language, host),
        None => toolchain::resolve(&Compile::default(), &project.language, host),
    }
}

/// What a project's artifact is called: as its `artifact` says, else as the
/// project.
pub open spec fn artifact_name(p: ProjectV) -> Seq<char> {
    match p.artifact {
        Some(a) => a,
        None => p.name,
    }
}

/// What a project's artifact is called.
pub fn artifact_name_of(project: &Project) -> (out: &str)
    ensures
        out@ == artifact_name(project@),
{
    match &project.artifact {
        Some(a) => a.as_str(),
        None => project.name.as_str(),
    }
}

/// The file name of a project's library.
pub open spec fn library_name(p: ProjectV, host: Host) -> Seq<char> {
    match p.link {
        Linkage::Dynamic => shared_name_on(host.os, artifact_name(p)),
        Linkage::Static => toolchain::archive_name_in(
            project_toolchain(p, host).dialect,
            artifact_name(p),
        ),
    }
}

/// The path of a project's library.
pub open spec fn library_at(
    p: ProjectV,
    root: Seq<char>,
    profile: Seq<char>,
    scoped: bool,
    host: Host,
) -> Seq<char> {
    paths::joined(artifact_dir(p, root, lib_kind(p), profile, scoped), library_name(p, host))
}

/// The exact library path a build writes for a library project, honoring its
/// `output.lib` override.
pub fn library_path(project: &Project, root: &str, profile: &str, scoped: bool, host: &Host) -> (out:
    String)
    requires
        project@.ty == ProjectType::Library,
    ensures
        out@ == library_at(project@, root@, profile@, scoped, *host),
{
    let dir = artifact_dir_of(project, root, lib_kind_of(project), profile, scoped);
    let name = match project.link {
        Linkage::Dynamic => shared_name(host.os, artifact_name_of(project)),
        Linkage::Static => {
            let tc = project_tools(project, host);
            tc.static_archive_name(artifact_name_of(project))
        },
    };
    paths::join(dir.as_str(), name.as_str())
}

/// The path that a dependent links against: the library itself, or the import
/// library beside it where the MSVC linker needs one.
pub open spec fn link_library_at(
    p: ProjectV,
    root: Seq<char>,
    profile: Seq<char>,
    scoped: bool,
    host: Host,
) -> Seq<char> {
    if p.link == Linkage::Dynamic && project_toolchain(p, host).dialect is Microsoft {
        paths::joined(
            artifact_dir(p, root, lib_kind(p), profile, scoped),
            artifact_name(p) + ".lib"@,
        )
    } else {
        library_at(p, root, profile, scoped, host)
    }
}

/// The path that a dependent of a library project links against.
pub fn link_library_path(
    project: &Project,
    root: &str,
    profile: &str,
    scoped: bool,
    host: &Host,
) -> (out: String)
    requires
        project@.ty == ProjectType::Library,
    ensures
        out@ == link_library_at(project@, root@, profile@, scoped, *host),
{
    let tc = project_tools(project, host);
    if !project.want_static() && tc.vcvars().is_some() {
        let dir = artifact_dir_of(project, root, lib_kind_of(project), profile, scoped);
        let name = text::cat(artifact_name_of(project), ".lib");
        paths::join(dir.as_str(), name.as_str())
    } else {
        library_path(project, root, profile, scoped, host)
    }
}

/// The path of a project's binary.
pub open spec fn binary_at(
    p: ProjectV,
    root: Seq<char>,
    profile: Seq<char>,
    scoped: bool,
    os: Os,
) -> Seq<char> {
    paths::joined(
        artifact_dir(p, root, bin_kind(p), profile, scoped),
        exe_name_on(os, artifact_name(p)),
    )
}

/// The exact path a build writes for a binary project, honoring its `output.bin`
/// override.
pub fn binary_path(project: &Project, root: &str, profile: &str, scoped: bool, os: Os) -> (out:
    String)
    ensures
        out@ == binary_at(project@, root@, profile@, scoped, os),
{
    let dir = artifact_dir_of(project, root, bin_kind_of(project), profile, scoped);
    let name = exe_name(os, artifact_name_of(project));
    paths::join(dir.as_str(), name.as_str())
}

/// The path a project's build produces.
pub open spec fn artifact_at(
    p: ProjectV,
    dir: Seq<char>,
    root: Seq<char>,
    profile: Seq<char>,
    host: Host,
) -> Seq<char> {
    let scoped = is_scoped(p, dir, root);
    if p.ty == ProjectType::Library {
        library_at(p, root, profile, scoped, host)
    } else {
        binary_at(p, root, profile, scoped, host.os)
    }
}

/// The path a project's build produces.
pub fn built_artifact(project: &Project, dir: &str, root: &str, profile: &str, host: &Host) -> (out:
    String)
    ensures
        out@ == artifact_at(project@, dir@, root@, profile@, *host),
{
    let scoped = output_scoped(project, dir, root);
    if project.is_library() {
        library_path(project, root, profile, scoped, host)
    } else {
        binary_path(project, root, profile, scoped, host.os)
    }
}

// ---------------------------------------------------------------------------
// pkg-config files
// ---------------------------------------------------------------------------

/// Whether a pkg-config file is written for a project: it is a library, and does
/// not say no.
pub open spec fn wants_pc(p: ProjectV) -> bool {
    p.ty == ProjectType::Library && p.generate_pc != Some(false)
}

/// Whether a pkg-config file is written for a project.
pub fn writes_pc(project: &Project) -> (res: bool)
    ensures
        res == wants_pc(project@),
{
    project.is_library() && match project.generate_pc {
        Some(yes) => yes,
        None => true,
    }
}

/// The pkg-config file of a library lies beside it.
pub open spec fn pc_at(p: ProjectV, root: Seq<char>, profile: Seq<char>, scoped: bool) -> Seq<char> {
    paths::joined(
        artifact_dir(p, root, lib_kind(p), profile, scoped),
        artifact_name(p) + ".pc"@,
    )
}

/// What the pkg-config file of a library says. It finds the library from where the
/// file itself lies, so that both can be moved together.
pub open spec fn pc_text(p: ProjectV) -> Seq<char> {
    "prefix=${pcfiledir}\nlibdir=${prefix}\n\nName: "@ + p.name + "\nDescription: "@ + (
    match p.description {
        Some(d) => d,
        None => p.name,
    }) + "\nVersion: "@ + (match p.version {
        Some(v) => v,
        None => "0.0.0"@,
    }) + "\nLibs: -L${libdir} -l"@ + artifact_name(p) + "\n"@
}

/// The pkg-config file to write for a project, as its path and its text, if one is
/// written.
pub fn pc_file(project: &Project, root: &str, profile: &str, scoped: bool) -> (out: Option<
    (String, String),
>)
    ensures
        match out {
            Some((path, contents)) => wants_pc(project@) && path@ == pc_at(
                project@,
                root@,
                profile@,
                scoped,
            ) && contents@ == pc_text(project@),
            None => !wants_pc(project@),
        },
{
    if !writes_pc(project) {
        return None;
    }
    let dir = artifact_dir_of(project, root, lib_kind_of(project), profile, scoped);
    let file = text::cat(artifact_name_of(project), ".pc");
    let mut contents = text::cat(
        "prefix=${pcfiledir}\nlibdir=${prefix}\n\nName: ",
        project.name.as_str(),
    );
    contents.append("\nDescription: ");
    match &project.description {
        Some(d) => contents.append(d.as_str()),
        None => contents.append(project.name.as_str()),
    }
    contents.append("\nVersion: ");
    match &project.version {
        Some(v) => contents.append(v.as_str()),
        None => contents.append("0.0.0"),
    }
    contents.append("\nLibs: -L${libdir} -l");
    contents.append(artifact_name_of(project));
    contents.append("\n");
    Some((paths::join(dir.as_str(), file.as_str()), contents))
}

// ---------------------------------------------------------------------------
// Commands
// ---------------------------------------------------------------------------

/// The words that start a link: the configured linker, or the compiler.
pub open spec fn linker_words(c: CompileV, tc: ToolchainV) -> Seq<Seq<char>> {
    toolchain::tool_words(c.linker, tc.cc)
}

/// Whether a flag asks for a static link.
pub open spec fn asks_static(f: Seq<char>) -> bool {
    f == "-static"@ || f == "-Wl,-static"@
}

/// Whether a flag asks for a static link.
pub fn is_static_flag(f: &str) -> (res: bool)
    ensures
        res == asks_static(f@),
{
    text::same(f, "-static") || text::same(f, "-Wl,-static")
}

/// The flags that do not ask for a static link.
pub open spec fn dynamic_flags(flags: Seq<Seq<char>>) -> Seq<Seq<char>> {
    flags.filter(|f: Seq<char>| !asks_static(f))
}

/// The flags that ask for a static link.
pub open spec fn static_flags(flags: Seq<Seq<char>>) -> Seq<Seq<char>> {
    flags.filter(|f: Seq<char>| asks_static(f))
}

/// Part the flags that ask for a static link from the others.
pub fn part_static(flags: &[String]) -> (out: (Vec<String>, Vec<String>))
    ensures
        text::texts(out.0@) == dynamic_flags(text::texts(flags@)),
        text::texts(out.1@) == static_flags(text::texts(flags@)),
{
    let ghost all = text::texts(flags@);
    let mut kept = text::none();
    let mut removed = text::none();
    let mut i: usize = 0;
    proof {
        reveal(Seq::filter);
        assert(all.take(0) =~= Seq::empty());
    }
    while i < flags.len()
        invariant
            i <= flags@.len(),
            all == text::texts(flags@),
            text::texts(kept@) == dynamic_flags(all.take(i as int)),
            text::texts(removed@) == static_flags(all.take(i as int)),
        decreases flags@.len() - i,
    {
        proof {
            reveal(Seq::filter);
            assert(all.take(i + 1).drop_last() =~= all.take(i as int));
            assert(all.take(i + 1).last() == flags@[i as int]@);
        }
        if is_static_flag(flags[i].as_str()) {
            text::push_text(&mut removed, flags[i].as_str());
        } else {
            text::push_text(&mut kept, flags[i].as_str());
        }
        i += 1;
    }
    proof {
        assert(all.take(i as int) =~= all);
    }
    (kept, removed)
}

/// The note on static flags that a dynamic binary ignores.
pub open spec fn ignored_note(name: Seq<char>, removed: Seq<Seq<char>>) -> Option<Seq<char>> {
    if removed.len() == 0 {
        None
    } else {
        Some(
            "ignored static link flag"@ + (if removed.len() > 1 {
                "s"@
            } else {
                ""@
            }) + " for dynamic binary `"@ + name + "`: "@ + text::join(removed, " "@),
        )
    }
}

fn note_ignored(name: &str, removed: &Vec<String>) -> (out: Option<String>)
    ensures
        text::opt(out) == ignored_note(name@, text::texts(removed@)),
{
    proof {
        assert(text::texts(removed@).len() == removed@.len());
    }
    if removed.len() == 0 {
        return None;
    }
    let plural = if removed.len() > 1 {
        "s"
    } else {
        ""
    };
    let mut out = text::cat3("ignored static link flag", plural, " for dynamic binary `");
    out.append(name);
    out.append("`: ");
    let list = text::join_texts(removed.as_slice(), " ");
    out.append(list.as_str());
    Some(out)
}

/// A path as seen from a directory: what is left below it, or the path itself.
pub open spec fn seen_from(path: Seq<char>, dir: Seq<char>) -> Seq<char> {
    match paths::stripped(path, dir) {
        Some(p) => p,
        None => path,
    }
}

/// A path as seen from a directory.
pub fn relative_to(path: &str, dir: &str) -> (out: String)
    ensures
        out@ == seen_from(path@, dir@),
{
    match paths::strip(path, dir) {
        Some(p) => p,
        None => path.to_owned(),
    }
}

/// The job that links a binary. A dynamic one drops the flags that ask for a
/// static link.
pub open spec fn binary_job(p: ProjectV, tc: ToolchainV, inputs: LinkInputsV, out: Seq<char>) -> LinkJobV {
    LinkJobV {
        shared: false,
        static_flag: if p.link == Linkage::Static {
            Some(toolchain::static_flag_in(tc.dialect))
        } else {
            None
        },
        prefix: linker_words(inputs.compile, tc),
        objects: inputs.objects,
        libs: inputs.libs,
        extra_libs: inputs.extra_libs,
        flags: if p.link == Linkage::Static {
            inputs.ld_flags
        } else {
            dynamic_flags(inputs.ld_flags)
        },
        out,
    }
}

/// The job that links a shared library.
pub open spec fn shared_job(tc: ToolchainV, inputs: LinkInputsV, out: Seq<char>) -> LinkJobV {
    LinkJobV {
        shared: true,
        static_flag: None,
        prefix: linker_words(inputs.compile, tc),
        objects: inputs.objects,
        libs: inputs.libs,
        extra_libs: inputs.extra_libs,
        flags: inputs.ld_flags,
        out,
    }
}

/// The command that links a binary with some flags.
pub fn binary_argv(
    tc: &Toolchain,
    project: &Project,
    inputs: &LinkInputs,
    flags: &[String],
    out: &str,
) -> (argv: Vec<String>)
    ensures
        text::texts(argv@) == toolchain::driver_link_in(
            tc@.dialect,
            (LinkJobV {
                flags: text::texts(flags@),
                ..binary_job(project@, tc@, inputs@, out@)
            }),
        ),
{
    let prefix = toolchain::split_tool(&inputs.compile.linker, tc.cc.as_slice());
    let job = LinkJob {
        shared: false,
        static_flag: if project.want_static() {
            tc.static_flag()
        } else {
            None
        },
        prefix: prefix.as_slice(),
        objects: inputs.objects,
        libs: inputs.libs,
        extra_libs: inputs.extra_libs,
        flags,
        out,
    };
    tc.driver_link_args(&job)
}

/// The command that links a shared library.
pub fn shared_argv(tc: &Toolchain, inputs: &LinkInputs, out: &str) -> (argv: Vec<String>)
    ensures
        text::texts(argv@) == toolchain::driver_link_in(
            tc@.dialect,
            shared_job(tc@, inputs@, out@),
        ),
{
    let prefix = toolchain::split_tool(&inputs.compile.linker, tc.cc.as_slice());
    let job = LinkJob {
        shared: true,
        static_flag: None,
        prefix: prefix.as_slice(),
        objects: inputs.objects,
        libs: inputs.libs,
        extra_libs: inputs.extra_libs,
        flags: inputs.ld_flags,
        out,
    };
    tc.driver_link_args(&job)
}

/// What it takes to produce an artifact: the directory it needs, the commands that
/// make it, each with what it is shown as, and what is left to say and do.
pub struct LinkPlan {
    pub out_dir: String,
    pub out: String,
    /// Shown before the commands are run.
    pub note: Option<String>,
    pub steps: Vec<(String, Vec<String>)>,
    /// Where a link to the artifact goes.
    pub symlink: Option<String>,
    /// Shown when it is done.
    pub built: String,
}

/// The model of a [`LinkPlan`].
pub struct LinkPlanV {
    pub out_dir: Seq<char>,
    pub out: Seq<char>,
    pub note: Option<Seq<char>>,
    pub steps: Seq<(Seq<char>, Seq<Seq<char>>)>,
    pub symlink: Option<Seq<char>>,
    pub built: Seq<char>,
}

impl View for LinkPlan {
    type V = LinkPlanV;

    open spec fn view(&self) -> LinkPlanV {
        LinkPlanV {
            out_dir: self.out_dir@,
            out: self.out@,
            note: text::opt(self.note),
            steps: toolchain::steps(self.steps@),
            symlink: text::opt(self.symlink),
            built: self.built@,
        }
    }
}

/// Whether a project asks for a link to its binary.
pub open spec fn wants_symlink(p: ProjectV) -> bool {
    p.output matches Some(o) && o.symlink_binaries == Some(true)
}

/// How a binary is linked into its target.
pub open spec fn binary_plan(
    p: ProjectV,
    tc: ToolchainV,
    target: LinkTargetV,
    inputs: LinkInputsV,
    out_dir: Seq<char>,
) -> LinkPlanV {
    LinkPlanV {
        out_dir,
        out: target.out,
        note: if p.link == Linkage::Static {
            None
        } else {
            ignored_note(p.name, static_flags(inputs.ld_flags))
        },
        steps: seq![
            (
                "Linking "@ + target.out,
                toolchain::driver_link_in(
                    tc.dialect,
                    binary_job(p, tc, inputs, seen_from(target.out, target.dir)),
                ),
            ),
        ],
        symlink: if target.symlink {
            Some(paths::joined(target.root, p.name))
        } else {
            None
        },
        built: "Built "@ + target.out,
    }
}

/// How a shared library is linked into its target.
pub open spec fn shared_plan(
    tc: ToolchainV,
    target: LinkTargetV,
    inputs: LinkInputsV,
    out_dir: Seq<char>,
) -> LinkPlanV {
    LinkPlanV {
        out_dir,
        out: target.out,
        note: None,
        steps: seq![
            (
                "Linking "@ + target.out,
                toolchain::driver_link_in(
                    tc.dialect,
                    shared_job(tc, inputs, seen_from(target.out, target.dir)),
                ),
            ),
        ],
        symlink: None,
        built: "Built "@ + target.out,
    }
}

/// Commands with the artifact behind what they are shown as.
pub open spec fn shown_steps(
    steps: Seq<(Seq<char>, Seq<Seq<char>>)>,
    out: Seq<char>,
) -> Seq<(Seq<char>, Seq<Seq<char>>)> {
    steps.map_values(|s: (Seq<char>, Seq<Seq<char>>)| (s.0 + " "@ + out, s.1))
}

/// How a static library is put together. It links nothing.
pub open spec fn archive_plan(
    tc: ToolchainV,
    target: LinkTargetV,
    objects: Seq<Seq<char>>,
    out_dir: Seq<char>,
) -> LinkPlanV {
    LinkPlanV {
        out_dir,
        out: target.out,
        note: None,
        steps: shown_steps(
            toolchain::archive_in(tc.dialect, seen_from(target.out, target.dir), objects),
            target.out,
        ),
        symlink: None,
        built: "Built "@ + target.out,
    }
}

fn one_step(header: String, argv: Vec<String>) -> (out: Vec<(String, Vec<String>)>)
    ensures
        toolchain::steps(out@) == seq![(header@, text::texts(argv@))],
{
    let ghost pair = (header@, text::texts(argv@));
    let mut out: Vec<(String, Vec<String>)> = Vec::new();
    out.push((header, argv));
    proof {
        assert(toolchain::steps(out@) =~= seq![pair]);
    }
    out
}

fn link_binary(
    tc: &Toolchain,
    project: &Project,
    target: &LinkTarget,
    inputs: &LinkInputs,
    out_dir: String,
) -> (plan: LinkPlan)
    ensures
        plan@ == binary_plan(project@, tc@, target@, inputs@, out_dir@),
{
    let (kept, removed) = part_static(inputs.ld_flags);
    let out = relative_to(target.out, target.dir);
    let argv = if project.want_static() {
        binary_argv(tc, project, inputs, inputs.ld_flags, out.as_str())
    } else {
        binary_argv(tc, project, inputs, kept.as_slice(), out.as_str())
    };
    let note = if project.want_static() {
        None
    } else {
        note_ignored(project.name.as_str(), &removed)
    };
    let symlink = if target.symlink {
        Some(paths::join(target.root, project.name.as_str()))
    } else {
        None
    };
    LinkPlan {
        out_dir,
        out: target.out.to_owned(),
        note,
        steps: one_step(text::cat("Linking ", target.out), argv),
        symlink,
        built: text::cat("Built ", target.out),
    }
}

fn link_shared(tc: &Toolchain, target: &LinkTarget, inputs: &LinkInputs, out_dir: String) -> (plan:
    LinkPlan)
    ensures
        plan@ == shared_plan(tc@, target@, inputs@, out_dir@),
{
    let out = relative_to(target.out, target.dir);
    let argv = shared_argv(tc, inputs, out.as_str());
    LinkPlan {
        out_dir,
        out: target.out.to_owned(),
        note: None,
        steps: one_step(text::cat("Linking ", target.out), argv),
        symlink: None,
        built: text::cat("Built ", target.out),
    }
}

fn link_archive(tc: &Toolchain, target: &LinkTarget, objects: &[String], out_dir: String) -> (plan:
    LinkPlan)
    ensures
        plan@ == archive_plan(tc@, target@, text::texts(objects@), out_dir@),
{
    let out = relative_to(target.out, target.dir);
    let mut cmds = tc.archive(out.as_str(), objects);
    let ghost raw = toolchain::steps(cmds@);
    let mut i: usize = 0;
    while i < cmds.len()
        invariant
            i <= cmds@.len() == raw.len(),
            forall|j: int|
                0 <= j < i ==> (#[trigger] toolchain::steps(cmds@)[j]) == (
                raw[j].0 + " "@ + target.out@, raw[j].1),
            forall|j: int| i <= j < raw.len() ==> (#[trigger] toolchain::steps(cmds@)[j]) == raw[j],
        decreases cmds@.len() - i,
    {
        let ghost before = cmds@;
        proof {
            assert(toolchain::steps(before)[i as int] == raw[i as int]);
        }
        let header = text::cat3(cmds[i].0.as_str(), " ", target.out);
        let argv = text::copy_texts(cmds[i].1.as_slice());
        let ghost pair = (header@, text::texts(argv@));
        cmds.set(i, (header, argv));
        proof {
            assert(toolchain::steps(cmds@) =~= toolchain::steps(before).update(i as int, pair));
        }
        i += 1;
    }
    proof {
        assert(toolchain::steps(cmds@) =~= shown_steps(raw, target.out@));
    }
    LinkPlan {
        out_dir,
        out: target.out.to_owned(),
        note: None,
        steps: cmds,
        symlink: None,
        built: text::cat("Built ", target.out),
    }
}

/// How a project's artifact is produced.
pub open spec fn plan_of(
    p: ProjectV,
    dir: Seq<char>,
    root: Seq<char>,
    profile: Seq<char>,
    inputs: LinkInputsV,
    host: Host,
) -> LinkPlanV {
    let scoped = is_scoped(p, dir, root);
    let tc = toolchain::toolchain_of(inputs.compile, p.language, host);
    let target = LinkTargetV {
        dir,
        root,
        out: artifact_at(p, dir, root, profile, host),
        symlink: p.ty == ProjectType::Binary && wants_symlink(p),
    };
    match (p.ty, p.link) {
        (ProjectType::Binary, _) => binary_plan(
            p,
            tc,
            target,
            inputs,
            artifact_dir(p, root, bin_kind(p), profile, scoped),
        ),
        (ProjectType::Library, Linkage::Dynamic) => shared_plan(
            tc,
            target,
            inputs,
            artifact_dir(p, root, lib_kind(p), profile, scoped),
        ),
        (ProjectType::Library, Linkage::Static) => archive_plan(
            tc,
            target,
            inputs.objects,
            artifact_dir(p, root, lib_kind(p), profile, scoped),
        ),
    }
}

/// Decide how a project's artifact is produced.
pub fn produce(
    project: &Project,
    dir: &str,
    root: &str,
    profile: &str,
    inputs: &LinkInputs,
    host: &Host,
) -> (plan: LinkPlan)
    ensures
        plan@ == plan_of(project@, dir@, root@, profile@, inputs@, *host),
{
    let scoped = output_scoped(project, dir, root);
    let tc = toolchain::resolve(inputs.compile, &project.language, host);
    let out = built_artifact(project, dir, root, profile, host);
    match project.ty {
        ProjectType::Binary => {
            let symlink = match &project.output {
                Some(o) => match o.symlink_binaries {
                    Some(b) => b,
                    None => false,
                },
                None => false,
            };
            let out_dir = artifact_dir_of(project, root, bin_kind_of(project), profile, scoped);
            let target = LinkTarget { dir, root, out: out.as_str(), symlink };
            link_binary(&tc, project, &target, inputs, out_dir)
        },
        ProjectType::Library => {
            let out_dir = artifact_dir_of(project, root, lib_kind_of(project), profile, scoped);
            let target = LinkTarget { dir, root, out: out.as_str(), symlink: false };
            match project.link {
                Linkage::Dynamic => link_shared(&tc, &target, inputs, out_dir),
                Linkage::Static => link_archive(&tc, &target, inputs.objects, out_dir),
            }
        },
    }
}

/// A build produces exactly the artifact whose absence makes it run again.
pub proof fn law_plan_makes_the_artifact(
    p: ProjectV,
    dir: Seq<char>,
    root: Seq<char>,
    profile: Seq<char>,
    inputs: LinkInputsV,
    host: Host,
)
    ensures
        plan_of(p, dir, root, profile, inputs, host).out == artifact_at(
            p,
            dir,
            root,
            profile,
            host,
        ),
{
}

/// A static library archives its objects and links nothing: neither the libraries
/// of its dependencies nor link flags change how it is made.
pub proof fn law_static_library_links_nothing(
    p: ProjectV,
    dir: Seq<char>,
    root: Seq<char>,
    profile: Seq<char>,
    a: LinkInputsV,
    b: LinkInputsV,
    host: Host,
)
    requires
        p.ty == ProjectType::Library,
        p.link == Linkage::Static,
        a.objects == b.objects,
        a.compile == b.compile,
    ensures
        plan_of(p, dir, root, profile, a, host) == plan_of(p, dir, root, profile, b, host),
{
}

/// The link of a dynamic binary carries no flag that asks for a static one, and
/// keeps every other flag, in order.
pub proof fn law_dynamic_binary_drops_static_flags(
    p: ProjectV,
    tc: ToolchainV,
    inputs: LinkInputsV,
    out: Seq<char>,
)
    requires
        p.link == Linkage::Dynamic,
    ensures
        ({
            let job = binary_job(p, tc, inputs, out);
            &&& job.static_flag is None
            &&& forall|i: int| 0 <= i < job.flags.len() ==> !asks_static(#[trigger] job.flags[i])
            &&& forall|i: int|
                0 <= i < inputs.ld_flags.len() && !asks_static(inputs.ld_flags[i])
                    ==> job.flags.contains(#[trigger] inputs.ld_flags[i])
        }),
{
    let keep = |f: Seq<char>| !asks_static(f);
    let flags = inputs.ld_flags.filter(keep);
    assert forall|i: int| 0 <= i < flags.len() implies !asks_static(#[trigger] flags[i]) by {
        inputs.ld_flags.lemma_filter_pred(keep, i);
    }
    assert forall|i: int|
        0 <= i < inputs.ld_flags.len() && !asks_static(inputs.ld_flags[i]) implies flags.contains(
        #[trigger] inputs.ld_flags[i],
    ) by {
        inputs.ld_flags.lemma_filter_contains(keep, i);
    }
}

/// A native gnu link of a binary: the linker, at most one `-static`, objects,
/// libraries, flags, and the output.
pub proof fn law_gnu_binary_command(
    p: ProjectV,
    tc: ToolchainV,
    os: Os,
    inputs: LinkInputsV,
    out: Seq<char>,
)
    requires
        tc.dialect == toolchain::Dialect::Gnu(proj_parse::Arch::Native, os),
    ensures
        toolchain::driver_link_in(tc.dialect, binary_job(p, tc, inputs, out)) == linker_words(
            inputs.compile,
            tc,
        ) + (if p.link == Linkage::Static && !inputs.ld_flags.contains("-static"@) {
            seq!["-static"@]
        } else {
            Seq::empty()
        }) + inputs.objects + inputs.libs + inputs.extra_libs + binary_job(
            p,
            tc,
            inputs,
            out,
        ).flags + seq!["-o"@, out],
{
    let job = binary_job(p, tc, inputs, out);
    assert(job.prefix + Seq::<Seq<char>>::empty() =~= job.prefix);
    assert(job.prefix + toolchain::gnu_static(job) + job.objects + job.libs + job.extra_libs
        + job.flags + Seq::<Seq<char>>::empty() =~= job.prefix + toolchain::gnu_static(job)
        + job.objects + job.libs + job.extra_libs + job.flags);
}

// ---------------------------------------------------------------------------
// What is linked, and where it goes
// ---------------------------------------------------------------------------

/// The flags that are left of a binary's link flags: all of them for a static one,
/// and all but those that ask for a static link for a dynamic one.
pub open spec fn flags_left(link: Linkage, flags: Seq<Seq<char>>) -> Seq<Seq<char>> {
    match link {
        Linkage::Static => flags,
        Linkage::Dynamic => flags.filter(
            |f: Seq<char>| f != "-static"@ && f != "-Wl,-static"@,
        ),
    }
}

proof fn lemma_flags_left(p: ProjectV, tc: ToolchainV, inputs: LinkInputsV, out: Seq<char>)
    ensures
        binary_job(p, tc, inputs, out).flags == flags_left(p.link, inputs.ld_flags),
{
    let a = |f: Seq<char>| !asks_static(f);
    let b = |f: Seq<char>| f != "-static"@ && f != "-Wl,-static"@;
    lemma_same_filter(inputs.ld_flags, a, b);
}

proof fn lemma_same_filter(
    v: Seq<Seq<char>>,
    a: spec_fn(Seq<char>) -> bool,
    b: spec_fn(Seq<char>) -> bool,
)
    requires
        forall|x: Seq<char>| #[trigger] a(x) == b(x),
    ensures
        v.filter(a) == v.filter(b),
    decreases v.len(),
{
    reveal(Seq::filter);
    if v.len() > 0 {
        lemma_same_filter(v.drop_last(), a, b);
        assert(a(v.last()) == b(v.last()));
    }
}

/// The words that a target asks for of a gnu driver.
pub open spec fn target_words(arch: proj_parse::Arch) -> Seq<Seq<char>> {
    match arch {
        proj_parse::Arch::X86 => seq!["-m32"@],
        proj_parse::Arch::X86_64 => seq!["-m64"@],
        _ => Seq::empty(),
    }
}

/// The linker of a project: the one it names, or its compiler.
pub open spec fn linker_of(c: CompileV, cc: Seq<Seq<char>>) -> Seq<Seq<char>> {
    if c.linker is Some && text::trim(c.linker->0).len() > 0 {
        text::white_words(c.linker->0)
    } else {
        cc
    }
}

/// A binary that a gnu toolchain links is made by one command: the linker, the
/// target, `-static` where it is asked for and not among the flags already, every
/// object, every library of a dependency, what pkg-config gave, the flags, and the
/// place of the artifact.
pub proof fn law_gnu_binary_is_linked(
    p: ProjectV,
    dir: Seq<char>,
    root: Seq<char>,
    profile: Seq<char>,
    inputs: LinkInputsV,
    host: Host,
    arch: proj_parse::Arch,
)
    requires
        p.ty == ProjectType::Binary,
        toolchain::toolchain_of(inputs.compile, p.language, host).dialect
            == toolchain::Dialect::Gnu(arch, host.os),
    ensures
        ({
            let plan = plan_of(p, dir, root, profile, inputs, host);
            let tc = toolchain::toolchain_of(inputs.compile, p.language, host);
            let out = match paths::stripped(plan.out, dir) {
                Some(r) => r,
                None => plan.out,
            };
            let nothing = Seq::<Seq<char>>::empty();
            let statically = if p.link == Linkage::Static && !inputs.ld_flags.contains(
                "-static"@,
            ) {
                seq!["-static"@]
            } else {
                nothing
            };
            &&& plan.steps.len() == 1
            &&& plan.steps[0].1 == linker_of(inputs.compile, tc.cc) + target_words(arch) + statically
                + inputs.objects + inputs.libs + inputs.extra_libs + flags_left(
                p.link,
                inputs.ld_flags,
            ) + seq!["-o"@, out]
        }),
{
    let tc = toolchain::toolchain_of(inputs.compile, p.language, host);
    let out = seen_from(artifact_at(p, dir, root, profile, host), dir);
    let job = binary_job(p, tc, inputs, out);
    lemma_flags_left(p, tc, inputs, out);
    let y = job.prefix + toolchain::arch_flags_in(tc.dialect) + toolchain::gnu_static(job)
        + job.objects + job.libs + job.extra_libs + job.flags;
    assert(y + Seq::<Seq<char>>::empty() =~= y);
}

/// A shared library that a gnu toolchain links is made by one command, which holds
/// every object and every library of its inputs, in order, and all of its flags.
pub proof fn law_gnu_shared_library_is_linked(
    p: ProjectV,
    dir: Seq<char>,
    root: Seq<char>,
    profile: Seq<char>,
    inputs: LinkInputsV,
    host: Host,
    arch: proj_parse::Arch,
)
    requires
        p.ty == ProjectType::Library,
        p.link == Linkage::Dynamic,
        toolchain::toolchain_of(inputs.compile, p.language, host).dialect
            == toolchain::Dialect::Gnu(arch, host.os),
    ensures
        ({
            let plan = plan_of(p, dir, root, profile, inputs, host);
            let tc = toolchain::toolchain_of(inputs.compile, p.language, host);
            let out = match paths::stripped(plan.out, dir) {
                Some(r) => r,
                None => plan.out,
            };
            let shared = if host.os == Os::MacOs {
                "-dynamiclib"@
            } else {
                "-shared"@
            };
            &&& plan.steps.len() == 1
            &&& plan.steps[0].1 == linker_of(inputs.compile, tc.cc) + target_words(arch)
                + inputs.objects + inputs.libs + inputs.extra_libs + inputs.ld_flags + seq![
                shared,
                "-o"@,
                out,
            ]
        }),
{
    let tc = toolchain::toolchain_of(inputs.compile, p.language, host);
    let out = seen_from(artifact_at(p, dir, root, profile, host), dir);
    let job = shared_job(tc, inputs, out);
    let a = job.prefix + toolchain::arch_flags_in(tc.dialect);
    assert(a + toolchain::gnu_static(job) =~= a);
    let y = a + job.objects + job.libs + job.extra_libs + job.flags;
    assert(y + seq![toolchain::gnu_shared(host.os)] + seq!["-o"@, out] =~= y + seq![
        toolchain::gnu_shared(host.os),
        "-o"@,
        out,
    ]);
}

/// What the MSVC toolchain links is made by one command too: every object and every
/// library, in order, `/LD` exactly for a shared library, `/MT` exactly for a static
/// binary, and the flags behind `/link`.
pub proof fn law_microsoft_links(
    p: ProjectV,
    dir: Seq<char>,
    root: Seq<char>,
    profile: Seq<char>,
    inputs: LinkInputsV,
    host: Host,
)
    requires
        !(p.ty == ProjectType::Library && p.link == Linkage::Static),
        toolchain::toolchain_of(inputs.compile, p.language, host).dialect is Microsoft,
    ensures
        ({
            let plan = plan_of(p, dir, root, profile, inputs, host);
            let tc = toolchain::toolchain_of(inputs.compile, p.language, host);
            let out = match paths::stripped(plan.out, dir) {
                Some(r) => r,
                None => plan.out,
            };
            let nothing = Seq::<Seq<char>>::empty();
            let kind = if p.ty == ProjectType::Library {
                seq!["/LD"@]
            } else if p.link == Linkage::Static {
                seq!["/MT"@]
            } else {
                nothing
            };
            let flags = if p.ty == ProjectType::Library {
                inputs.ld_flags
            } else {
                flags_left(p.link, inputs.ld_flags)
            };
            let linked = if flags.len() > 0 {
                seq!["/link"@] + flags
            } else {
                nothing
            };
            &&& plan.steps.len() == 1
            &&& plan.steps[0].1 == linker_of(inputs.compile, tc.cc) + seq!["/nologo"@] + kind
                + inputs.objects + inputs.libs + inputs.extra_libs + seq!["/Fe:"@ + out] + linked
        }),
{
    let tc = toolchain::toolchain_of(inputs.compile, p.language, host);
    let out = seen_from(artifact_at(p, dir, root, profile, host), dir);
    lemma_flags_left(p, tc, inputs, out);
    let nothing = Seq::<Seq<char>>::empty();
    let x = linker_words(inputs.compile, tc) + seq!["/nologo"@];
    assert(x + nothing =~= x);
    assert(x + nothing + nothing =~= x);
    assert(x + seq!["/LD"@] + nothing =~= x + seq!["/LD"@]);
}

/// A static library is made of all of its objects, in order, by the archiver.
pub proof fn law_static_library_holds_every_object(
    p: ProjectV,
    dir: Seq<char>,
    root: Seq<char>,
    profile: Seq<char>,
    inputs: LinkInputsV,
    host: Host,
)
    requires
        p.ty == ProjectType::Library,
        p.link == Linkage::Static,
    ensures
        ({
            let plan = plan_of(p, dir, root, profile, inputs, host);
            let d = toolchain::toolchain_of(inputs.compile, p.language, host).dialect;
            let out = match paths::stripped(plan.out, dir) {
                Some(r) => r,
                None => plan.out,
            };
            &&& d is Gnu ==> plan.steps.len() == 2 && plan.steps[0].1 == seq![
                "ar"@,
                "rcs"@,
                out,
            ] + inputs.objects && plan.steps[1].1 == seq!["ranlib"@, out]
            &&& d is Microsoft ==> plan.steps.len() == 1 && plan.steps[0].1 == seq![
                "lib.exe"@,
                "/nologo"@,
                "/OUT:"@ + out,
            ] + inputs.objects
        }),
{
}

/// Where a project's artifact goes: below `bin` or `lib` of the root, or what the
/// project has in their place; in a directory of the project where several are built
/// together; in a directory of the profile; and under the project's name, or the one
/// it gives its artifact. The directory that is made for it is the one it lies in.
pub proof fn law_where_artifacts_go(
    p: ProjectV,
    dir: Seq<char>,
    root: Seq<char>,
    profile: Seq<char>,
    inputs: LinkInputsV,
    host: Host,
)
    ensures
        ({
            let plan = plan_of(p, dir, root, profile, inputs, host);
            let name = match p.artifact {
                Some(a) => a,
                None => p.name,
            };
            let library = p.ty == ProjectType::Library;
            let kind = match p.output {
                Some(o) => if library {
                    match o.lib {
                        Some(l) => l,
                        None => "lib"@,
                    }
                } else {
                    match o.bin {
                        Some(b) => b,
                        None => "bin"@,
                    }
                },
                None => if library {
                    "lib"@
                } else {
                    "bin"@
                },
            };
            let several = (p.siblings is Some && p.siblings->0.len() > 0) || !paths::same_path(
                dir,
                root,
            );
            let d = toolchain::toolchain_of(
                if p.compile is Some {
                    p.compile->0
                } else {
                    proj_parse::no_compile()
                },
                p.language,
                host,
            ).dialect;
            let file = if !library {
                if host.os == Os::Windows {
                    name + ".exe"@
                } else {
                    name
                }
            } else if p.link == Linkage::Dynamic {
                match host.os {
                    Os::Windows => name + ".dll"@,
                    Os::MacOs => "lib"@ + name + ".dylib"@,
                    Os::Other => "lib"@ + name + ".so"@,
                }
            } else if d is Gnu {
                "lib"@ + name + ".a"@
            } else {
                name + ".lib"@
            };
            let below = paths::joined(root, kind);
            let place = if several {
                paths::joined(paths::joined(below, p.name), profile)
            } else {
                paths::joined(below, profile)
            };
            &&& plan.out_dir == place
            &&& plan.out == paths::joined(place, file)
            &&& plan.out == artifact_at(p, dir, root, profile, host)
            &&& plan.symlink is Some <==> !library && p.output is Some
                && p.output->0.symlink_binaries == Some(true)
            &&& plan.symlink matches Some(at) ==> at == paths::joined(root, p.name)
            &&& plan.built == "Built "@ + plan.out
        }),
{
}

/// What a dependent links against lies where the library lies: it is the library
/// itself, or the import library beside it where MSVC links a shared one.
pub proof fn law_what_dependents_link(
    p: ProjectV,
    root: Seq<char>,
    profile: Seq<char>,
    scoped: bool,
    host: Host,
)
    ensures
        ({
            let d = toolchain::toolchain_of(
                proj_parse::compile_or_none(p.compile),
                p.language,
                host,
            ).dialect;
            let linked = link_library_at(p, root, profile, scoped, host);
            let name = match p.artifact {
                Some(a) => a,
                None => p.name,
            };
            &&& d is Gnu || p.link == Linkage::Static ==> linked == library_at(
                p,
                root,
                profile,
                scoped,
                host,
            )
            &&& d is Microsoft && p.link == Linkage::Dynamic ==> linked == paths::joined(
                artifact_dir(p, root, lib_kind(p), profile, scoped),
                name + ".lib"@,
            )
        }),
{
}

/// A dynamic binary says which flags it left out, and only then.
pub proof fn law_ignored_flags_are_named(
    p: ProjectV,
    dir: Seq<char>,
    root: Seq<char>,
    profile: Seq<char>,
    inputs: LinkInputsV,
    host: Host,
)
    ensures
        plan_of(p, dir, root, profile, inputs, host).note is Some <==> p.ty == ProjectType::Binary
            && p.link == Linkage::Dynamic && (inputs.ld_flags.contains("-static"@)
            || inputs.ld_flags.contains("-Wl,-static"@)),
{
    let pred = |f: Seq<char>| asks_static(f);
    let v = inputs.ld_flags;
    let s = v.filter(pred);
    if s.len() > 0 {
        v.lemma_filter_pred(pred, 0);
        assert(s.contains(s[0]));
        v.lemma_filter_contains_rev(pred, s[0]);
    }
    if v.contains("-static"@) {
        let i = choose|i: int| 0 <= i < v.len() && v[i] == "-static"@;
        v.lemma_filter_contains(pred, i);
    }
    if v.contains("-Wl,-static"@) {
        let i = choose|i: int| 0 <= i < v.len() && v[i] == "-Wl,-static"@;
        v.lemma_filter_contains(pred, i);
    }
}

/// The pkg-config file of a library lies beside the library, links the library that
/// lies there, and holds no path but its own: it can be moved together with it.
pub proof fn law_pc_file(p: ProjectV, root: Seq<char>, profile: Seq<char>, scoped: bool)
    ensures
        wants_pc(p) <==> p.ty == ProjectType::Library && p.generate_pc != Some(false),
        ({
            let name = match p.artifact {
                Some(a) => a,
                None => p.name,
            };
            &&& pc_at(p, root, profile, scoped) == paths::joined(
                artifact_dir(p, root, lib_kind(p), profile, scoped),
                name + ".pc"@,
            )
            &&& text::begins(pc_text(p), "prefix=${pcfiledir}\nlibdir=${prefix}\n\nName: "@ + p.name)
            &&& text::ends(pc_text(p), "\nLibs: -L${libdir} -l"@ + name + "\n"@)
        }),
{
    let name = artifact_name(p);
    let head = "prefix=${pcfiledir}\nlibdir=${prefix}\n\nName: "@ + p.name;
    let end = "\nLibs: -L${libdir} -l"@ + name + "\n"@;
    let about = match p.description {
        Some(d) => d,
        None => p.name,
    };
    let version = match p.version {
        Some(v) => v,
        None => "0.0.0"@,
    };
    let middle = "\nDescription: "@ + about + "\nVersion: "@ + version;
    assert(pc_text(p) =~= head + (middle + end));
    assert(pc_text(p) =~= (head + middle) + end);
    text::law_begins_and_ends(head, middle + end);
    text::law_begins_and_ends(end, head + middle);
}

} // verus!
