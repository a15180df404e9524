//! The decisions behind the subcommands: what a new project looks like, how a
//! manifest is edited in place, and what is locked, updated or refused.
//!
//! `conjure add` and `conjure rm` edit the manifest as a KDL document, so that the
//! nodes they do not concern stay as they are. The manifest is laid out anew, and
//! [`restore_quotes`] puts back the quotes that the document does not keep.
use vstd::prelude::*;
use kdl::{KdlDocument, KdlNode};
use crate::diag;
use crate::diag::{Fault, FaultV};
use crate::document;
use crate::document::Tree;
use crate::git;
use crate::lock;
use crate::lock::{LockFile, LockedDepV};
use crate::names;
use crate::names::NameMap;
use crate::paths;
use crate::proj_parse;
use crate::proj_parse::{
    Arch, Compile, CompileV, Dependency, DependencyV, Flags, FlagsV, Linkage, Output, OutputV,
    Profile, ProfileV, Project, ProjectType, ProjectV, Remote, RemoteV,
};
use crate::quotes;
use crate::text;
use crate::ui;

verus! {

// ---------------------------------------------------------------------------
// Quotes
// ---------------------------------------------------------------------------

/// Re-apply the quoting that KDL parsing discarded.
///
/// A document does not keep how its values were quoted, so a rewritten manifest
/// would turn a deliberately quoted `"c"` into a bare `c`. `original` is the text
/// before the edit; every word that was quoted there is quoted again in `out`, but
/// for the first of a line. Tokens are kept apart by a blank.
pub fn restore_quotes(original: &str, out: &str) -> (res: String)
    ensures
        res@ == quotes::restored(original@, out@),
{
    let quoted = quotes::quoted_of(original);
    if quoted.len() == 0 {
        return out.to_owned();
    }
    let lines = text::text_lines(out);
    let ghost all = text::texts(lines@);
    let ghost qs = text::texts(quoted@);
    let mut res = String::new();
    let mut i: usize = 0;
    proof {
        assert(all.take(0) =~= Seq::empty());
        assert(res@ =~= Seq::empty());
    }
    while i < lines.len()
        invariant
            i <= lines@.len(),
            all == text::texts(lines@),
            qs == text::texts(quoted@),
            res@ == quotes::lines_restored(all.take(i as int), qs),
        decreases lines@.len() - i,
    {
        proof {
            assert(all.take(i + 1).drop_last() =~= all.take(i as int));
            assert(all.take(i + 1).last() == lines@[i as int]@);
        }
        let line = quotes::restore_line(lines[i].as_str(), quoted.as_slice());
        res.append(line.as_str());
        res.append("\n");
        i += 1;
    }
    proof {
        assert(all.take(i as int) =~= all);
    }
    res
}

// ---------------------------------------------------------------------------
// New projects
// ---------------------------------------------------------------------------

/// The language a project is asked to be in.
#[derive(Clone, Copy, Debug, PartialEq, Eq, Structural)]
pub enum Language {
    C,
    Cpp,
}

/// What a project is asked to produce.
#[derive(Clone, Copy, Debug, PartialEq, Eq, Structural)]
pub enum TypeType {
    Binary,
    Library,
}

/// How a project is asked to link.
#[derive(Clone, Copy, Debug, PartialEq, Eq, Structural)]
pub enum LinkType {
    Static,
    Dynamic,
}

/// The architecture a project is asked to be for.
#[derive(Clone, Copy, Debug, PartialEq, Eq, Structural)]
pub enum ArchType {
    Native,
    X86,
    X64,
    Arm64,
}

/// What a language is called.
pub open spec fn language_name(l: Language) -> Seq<char> {
    match l {
        Language::C => "C"@,
        Language::Cpp => "C++"@,
    }
}

/// What a type is called.
pub open spec fn type_called(t: TypeType) -> Seq<char> {
    match t {
        TypeType::Binary => "binary"@,
        TypeType::Library => "library"@,
    }
}

/// What a linkage is called.
pub open spec fn link_called(l: LinkType) -> Seq<char> {
    match l {
        LinkType::Static => "static"@,
        LinkType::Dynamic => "dynamic"@,
    }
}

/// What an architecture is called.
pub open spec fn arch_called(a: ArchType) -> Seq<char> {
    match a {
        ArchType::Native => "native"@,
        ArchType::X86 => "x86"@,
        ArchType::X64 => "x64"@,
        ArchType::Arm64 => "arm64"@,
    }
}

impl Language {
    /// What the language is called.
    pub fn shown(&self) -> (out: &'static str)
        ensures
            out@ == language_name(*self),
    {
        match self {
            Language::C => "C",
            Language::Cpp => "C++",
        }
    }
}

impl TypeType {
    /// What the type is called.
    pub fn shown(&self) -> (out: &'static str)
        ensures
            out@ == type_called(*self),
    {
        match self {
            TypeType::Binary => "binary",
            TypeType::Library => "library",
        }
    }
}

impl LinkType {
    /// What the linkage is called.
    pub fn shown(&self) -> (out: &'static str)
        ensures
            out@ == link_called(*self),
    {
        match self {
            LinkType::Static => "static",
            LinkType::Dynamic => "dynamic",
        }
    }
}

impl ArchType {
    /// What the architecture is called.
    pub fn shown(&self) -> (out: &'static str)
        ensures
            out@ == arch_called(*self),
    {
        match self {
            ArchType::Native => "native",
            ArchType::X86 => "x86",
            ArchType::X64 => "x64",
            ArchType::Arm64 => "arm64",
        }
    }
}

/// The architecture of a manifest that an asked-for one stands for.
pub fn project_arch(arch: ArchType) -> (out: Arch)
    ensures
        out == (match arch {
            ArchType::X86 => Arch::X86,
            ArchType::X64 => Arch::X86_64,
            ArchType::Arm64 => Arch::Arm64,
            ArchType::Native => Arch::Native,
        }),
{
    match arch {
        ArchType::X86 => Arch::X86,
        ArchType::X64 => Arch::X86_64,
        ArchType::Arm64 => Arch::Arm64,
        ArchType::Native => Arch::Native,
    }
}

/// The type of a manifest that an asked-for one stands for: a binary where none
/// was asked for.
pub fn project_type(ty: Option<TypeType>) -> (out: ProjectType)
    ensures
        out == (match ty {
            Some(TypeType::Library) => ProjectType::Library,
            _ => ProjectType::Binary,
        }),
{
    match ty {
        Some(TypeType::Library) => ProjectType::Library,
        Some(TypeType::Binary) | None => ProjectType::Binary,
    }
}

/// The linkage of a manifest that an asked-for one stands for: dynamic where none
/// was asked for.
pub fn project_link(link: Option<LinkType>) -> (out: Linkage)
    ensures
        out == (match link {
            Some(LinkType::Static) => Linkage::Static,
            _ => Linkage::Dynamic,
        }),
{
    match link {
        Some(LinkType::Static) => Linkage::Static,
        Some(LinkType::Dynamic) | None => Linkage::Dynamic,
    }
}

/// The standard of a new project for which none was asked.
pub open spec fn standard_for(language: Option<Language>) -> Seq<char> {
    match language {
        Some(Language::Cpp) => "c++17"@,
        _ => "c11"@,
    }
}

/// The standard of a new project for which none was asked.
pub fn default_standard(language: Option<Language>) -> (out: &'static str)
    ensures
        out@ == standard_for(language),
{
    match language {
        Some(Language::Cpp) => "c++17",
        Some(Language::C) | None => "c11",
    }
}

/// What is asked of a new project.
pub struct Wishes {
    pub language: Option<Language>,
    pub standard: Option<String>,
    pub ty: Option<TypeType>,
    pub link: Option<LinkType>,
    pub arch: Option<ArchType>,
}

/// The model of [`Wishes`].
pub struct WishesV {
    pub language: Option<Language>,
    pub standard: Option<Seq<char>>,
    pub ty: Option<TypeType>,
    pub link: Option<LinkType>,
    pub arch: Option<ArchType>,
}

impl View for Wishes {
    type V = WishesV;

    open spec fn view(&self) -> WishesV {
        WishesV {
            language: self.language,
            standard: text::opt(self.standard),
            ty: self.ty,
            link: self.link,
            arch: self.arch,
        }
    }
}

/// The standard a new project gets.
pub open spec fn standard_of(w: WishesV) -> Seq<char> {
    match w.standard {
        Some(s) => s,
        None => standard_for(w.language),
    }
}

/// The one-line success message of `new` and `init`.
pub open spec fn summary(name: Seq<char>, w: WishesV) -> Seq<char> {
    let language = match w.language {
        Some(l) => l,
        None => Language::C,
    };
    let ty = match w.ty {
        Some(t) => t,
        None => TypeType::Binary,
    };
    let link = match w.link {
        Some(l) => l,
        None => LinkType::Dynamic,
    };
    let arch = match w.arch {
        Some(a) => a,
        None => ArchType::Native,
    };
    "Created project "@ + ui::coloured("\x1b[32m"@, ui::bolded(name)) + " with language "@
        + ui::coloured("\x1b[34m"@, ui::bolded(language_name(language))) + ", standard "@
        + ui::coloured("\x1b[33m"@, ui::bolded(standard_of(w))) + ", type "@ + ui::coloured(
        "\x1b[35m"@,
        ui::bolded(type_called(ty)),
    ) + ", link "@ + ui::coloured("\x1b[35m"@, ui::bolded(link_called(link))) + ", and arch "@
        + ui::coloured("\x1b[36m"@, ui::bolded(arch_called(arch)))
}

fn bold_purple(s: &str) -> (out: String)
    ensures
        out@ == ui::coloured("\x1b[35m"@, ui::bolded(s@)),
{
    let b = ui::bold(s);
    ui::purple(b.as_str())
}

/// The one-line success message shared by `new` and `init`, showing the values the
/// project was actually created with (defaults filled in).
pub fn created_summary(name: &str, wishes: &Wishes) -> (out: String)
    ensures
        out@ == summary(name@, wishes@),
{
    let language = match wishes.language {
        Some(l) => l,
        None => Language::C,
    };
    let ty = match wishes.ty {
        Some(t) => t,
        None => TypeType::Binary,
    };
    let link = match wishes.link {
        Some(l) => l,
        None => LinkType::Dynamic,
    };
    let arch = match wishes.arch {
        Some(a) => a,
        None => ArchType::Native,
    };
    let standard = match &wishes.standard {
        Some(s) => s.as_str(),
        None => default_standard(wishes.language),
    };
    let b = ui::bold(name);
    let c = ui::green(b.as_str());
    let mut out = text::cat("Created project ", c.as_str());
    out.append(" with language ");
    let b = ui::bold(language.shown());
    let c = ui::blue(b.as_str());
    out.append(c.as_str());
    out.append(", standard ");
    let b = ui::bold(standard);
    let c = ui::yellow(b.as_str());
    out.append(c.as_str());
    out.append(", type ");
    let c = bold_purple(ty.shown());
    out.append(c.as_str());
    out.append(", link ");
    let c = bold_purple(link.shown());
    out.append(c.as_str());
    out.append(", and arch ");
    let b = ui::bold(arch.shown());
    let c = ui::cyan(b.as_str());
    out.append(c.as_str());
    out
}

/// A profile that adds flags.
pub open spec fn flag_profile(c_flags: Seq<Seq<char>>, ld_flags: Seq<Seq<char>>) -> ProfileV {
    ProfileV {
        c_flags: Some(FlagsV::Append(c_flags)),
        ld_flags: Some(FlagsV::Append(ld_flags)),
        ..proj_parse::no_profile()
    }
}

/// The profiles of a new project: one for debugging and one for release.
pub open spec fn new_profiles() -> Seq<(Seq<char>, ProfileV)> {
    seq![
        ("debug"@, flag_profile(seq!["-g"@, "-O0"@], seq!["-g"@, "-O0"@])),
        ("release"@, flag_profile(seq!["-O2"@], seq!["-O2"@, "-flto"@])),
    ]
}

/// A freshly created project.
pub open spec fn new_project(name: Seq<char>, w: WishesV) -> ProjectV {
    ProjectV {
        name,
        language: match w.language {
            Some(Language::Cpp) => proj_parse::Language::Cpp,
            _ => proj_parse::Language::C,
        },
        compile: Some(
            CompileV {
                standard: Some(standard_of(w)),
                arch: match w.arch {
                    Some(ArchType::X86) => Some(Arch::X86),
                    Some(ArchType::X64) => Some(Arch::X86_64),
                    Some(ArchType::Arm64) => Some(Arch::Arm64),
                    Some(ArchType::Native) => Some(Arch::Native),
                    None => None,
                },
                ..proj_parse::no_compile()
            },
        ),
        ty: match w.ty {
            Some(TypeType::Library) => ProjectType::Library,
            _ => ProjectType::Binary,
        },
        link: match w.link {
            Some(LinkType::Static) => Linkage::Static,
            _ => Linkage::Dynamic,
        },
        siblings: Some(Seq::empty()),
        profiles: Some(new_profiles()),
        dependencies: Some(Seq::empty()),
        tests: Some(Seq::empty()),
        output: Some(OutputV { bin: None, lib: None, symlink_binaries: None }),
        ..proj_parse::no_project()
    }
}

fn appended(c_flags: Vec<String>, ld_flags: Vec<String>) -> (out: Profile)
    ensures
        out@ == flag_profile(text::texts(c_flags@), text::texts(ld_flags@)),
{
    Profile {
        c_flags: Some(Flags::Append(c_flags)),
        ld_flags: Some(Flags::Append(ld_flags)),
        ..Profile::default()
    }
}

fn pair(a: &str, b: &str) -> (out: Vec<String>)
    ensures
        text::texts(out@) == seq![a@, b@],
{
    let mut out = text::one(a);
    text::push_text(&mut out, b);
    out
}

/// Assemble the manifest for a freshly created project, including the default
/// `debug`/`release` profiles.
pub fn build_project(name: String, wishes: &Wishes) -> (out: Project)
    ensures
        out@ == new_project(name@, wishes@),
{
    let standard = match &wishes.standard {
        Some(s) => s.clone(),
        None => default_standard(wishes.language).to_owned(),
    };
    let arch = match wishes.arch {
        Some(a) => Some(project_arch(a)),
        None => None,
    };
    let mut profiles: NameMap<Profile> = NameMap::new();
    let debug = appended(pair("-g", "-O0"), pair("-g", "-O0"));
    let release = appended(text::one("-O2"), pair("-O2", "-flto"));
    proof {
        reveal_strlit("debug");
        reveal_strlit("release");
        names::lemma_position_is(profiles@, "debug"@, 0);
    }
    profiles.insert("debug".to_owned(), debug);
    proof {
        assert("debug"@[0] != "release"@[0]);
        names::lemma_position_is(profiles@, "release"@, 1);
    }
    profiles.insert("release".to_owned(), release);
    proof {
        assert(profiles@ =~= new_profiles());
    }
    let siblings: NameMap<proj_parse::Sibling> = NameMap::new();
    let dependencies: NameMap<Dependency> = NameMap::new();
    let tests: NameMap<proj_parse::Test> = NameMap::new();
    Project {
        name,
        language: match wishes.language {
            Some(Language::Cpp) => proj_parse::Language::Cpp,
            Some(Language::C) | None => proj_parse::Language::C,
        },
        compile: Some(Compile { standard: Some(standard), arch, ..Compile::default() }),
        ty: project_type(wishes.ty),
        link: project_link(wishes.link),
        siblings: Some(siblings),
        profiles: Some(profiles),
        dependencies: Some(dependencies),
        tests: Some(tests),
        output: Some(Output { bin: None, lib: None, symlink_binaries: None }),
        ..Project::default()
    }
}

/// Why a project is not created where there is one already.
pub open spec fn taken(name: Seq<char>, there: bool, force: bool) -> Option<FaultV> {
    if there && !force {
        Some(
            diag::hinted(
                "Project `"@ + name + "` already exists"@,
                "Use --force to overwrite the project"@,
            ),
        )
    } else {
        None
    }
}

/// Whether a project may be created: not over one that is there, unless forced.
pub fn may_create(name: &str, there: bool, force: bool) -> (out: Result<(), Fault>)
    ensures
        match out {
            Ok(()) => taken(name@, there, force) is None,
            Err(e) => taken(name@, there, force) == Some(e@),
        },
{
    if there && !force {
        Err(
            Fault::hinted(
                text::cat3("Project `", name, "` already exists"),
                "Use --force to overwrite the project",
            ),
        )
    } else {
        Ok(())
    }
}

/// Where a new project goes: a directory named after it.
pub open spec fn new_dir(name: Seq<char>) -> Seq<char> {
    paths::joined("."@, proj_parse::slug(proj_parse::lowered(name)))
}

/// A project to create.
pub struct Creation {
    /// Where its tree goes.
    pub dir: String,
    /// What its manifest says.
    pub project: Project,
    /// What is shown once it is there.
    pub message: String,
}

/// Where a new project goes: a directory named after it.
pub fn project_dir(name: &str) -> (out: String)
    ensures
        out@ == new_dir(name@),
{
    let slug = proj_parse::slugify(name);
    paths::join(".", slug.as_str())
}

/// Decide what `conjure new` creates. `there` says whether [`project_dir`] is a
/// directory already.
pub fn handle_new(name: &str, wishes: &Wishes, there: bool, force: bool) -> (out: Result<
    Creation,
    Fault,
>)
    ensures
        match out {
            Ok(c) => {
                &&& taken(name@, there, force) is None
                &&& c.dir@ == new_dir(name@)
                &&& c.project@ == new_project(name@, wishes@)
                &&& c.message@ == summary(name@, wishes@)
            },
            Err(e) => taken(name@, there, force) == Some(e@),
        },
{
    match may_create(name, there, force) {
        Ok(()) => {},
        Err(e) => return Err(e),
    }
    Ok(
        Creation {
            dir: project_dir(name),
            project: build_project(name.to_owned(), wishes),
            message: created_summary(name, wishes),
        },
    )
}

/// The name of a project made in place: the one it was given, or that of the
/// current directory, if it has one.
pub open spec fn init_name(given: Option<Seq<char>>, dir_name: Option<Seq<char>>) -> Seq<char> {
    match text::either(given, dir_name) {
        Some(n) => n,
        None => Seq::empty(),
    }
}

/// Decide what `conjure init` creates in the current directory, from the names of
/// the files in it: a `conjure.kdl` that is there already is kept, unless forced.
pub fn handle_init(
    given: &Option<String>,
    dir_name: &Option<String>,
    wishes: &Wishes,
    files: &[String],
    force: bool,
) -> (out: Result<Creation, Fault>)
    ensures
        ({
            let name = init_name(text::opt(*given), text::opt(*dir_name));
            let there = text::texts(files@).contains("conjure.kdl"@);
            match out {
                Ok(c) => {
                    &&& taken(name, there, force) is None
                    &&& c.dir@ == "."@
                    &&& c.project@ == new_project(name, wishes@)
                    &&& c.message@ == summary(name, wishes@)
                },
                Err(e) => taken(name, there, force) == Some(e@),
            }
        }),
{
    let name = match text::either_text(given, dir_name) {
        Some(n) => n,
        None => String::new(),
    };
    proof {
        assert(name@ =~= init_name(text::opt(*given), text::opt(*dir_name)));
    }
    let there = text::has_text(files, "conjure.kdl");
    match may_create(name.as_str(), there, force) {
        Ok(()) => {},
        Err(e) => return Err(e),
    }
    let message = created_summary(name.as_str(), wishes);
    Ok(Creation { dir: ".".to_owned(), project: build_project(name, wishes), message })
}

// ---------------------------------------------------------------------------
// Adding a dependency
// ---------------------------------------------------------------------------

/// How a dependency is fetched.
#[derive(Clone, Copy, Debug, PartialEq, Eq, Structural)]
pub enum Transport {
    Ssh,
    Https,
}

/// How a dependency is built.
#[derive(Clone, Copy, Debug, PartialEq, Eq, Structural)]
pub enum BuildSystem {
    Make,
    Cmake,
    Autotools,
    Meson,
    Ninja,
    Xmake,
    Just,
}

/// Where a dependency comes from.
#[derive(Clone, Copy, Debug, PartialEq, Eq, Structural)]
pub enum LocalOrRemote {
    Local,
    Codeberg,
    Github,
    Bitbucket,
    Git,
}

/// The name of a transport.
pub open spec fn transport_name(t: Transport) -> Seq<char> {
    match t {
        Transport::Ssh => "ssh"@,
        Transport::Https => "https"@,
    }
}

/// The name of a build system.
pub open spec fn system_name(b: BuildSystem) -> Seq<char> {
    match b {
        BuildSystem::Make => "make"@,
        BuildSystem::Cmake => "cmake"@,
        BuildSystem::Autotools => "autotools"@,
        BuildSystem::Meson => "meson"@,
        BuildSystem::Ninja => "ninja"@,
        BuildSystem::Xmake => "xmake"@,
        BuildSystem::Just => "just"@,
    }
}

/// The name of a host.
pub open spec fn host_name(h: LocalOrRemote) -> Seq<char> {
    match h {
        LocalOrRemote::Local => "local"@,
        LocalOrRemote::Codeberg => "codeberg"@,
        LocalOrRemote::Github => "github"@,
        LocalOrRemote::Bitbucket => "bitbucket"@,
        LocalOrRemote::Git => "git"@,
    }
}

impl Transport {
    /// The transport's name.
    pub fn name(&self) -> (out: &'static str)
        ensures
            out@ == transport_name(*self),
    {
        match self {
            Transport::Ssh => "ssh",
            Transport::Https => "https",
        }
    }

    /// The transport of a manifest that this one stands for.
    pub fn parsed(&self) -> (out: proj_parse::Transport)
        ensures
            out == (match *self {
                Transport::Ssh => proj_parse::Transport::Ssh,
                Transport::Https => proj_parse::Transport::Https,
            }),
    {
        match self {
            Transport::Ssh => proj_parse::Transport::Ssh,
            Transport::Https => proj_parse::Transport::Https,
        }
    }
}

impl BuildSystem {
    /// The build system's name.
    pub fn name(&self) -> (out: &'static str)
        ensures
            out@ == system_name(*self),
    {
        match self {
            BuildSystem::Make => "make",
            BuildSystem::Cmake => "cmake",
            BuildSystem::Autotools => "autotools",
            BuildSystem::Meson => "meson",
            BuildSystem::Ninja => "ninja",
            BuildSystem::Xmake => "xmake",
            BuildSystem::Just => "just",
        }
    }
}

impl LocalOrRemote {
    /// The host's name.
    pub fn name(&self) -> (out: &'static str)
        ensures
            out@ == host_name(*self),
    {
        match self {
            LocalOrRemote::Local => "local",
            LocalOrRemote::Codeberg => "codeberg",
            LocalOrRemote::Github => "github",
            LocalOrRemote::Bitbucket => "bitbucket",
            LocalOrRemote::Git => "git",
        }
    }
}

/// The files that give a build system away, in the order they are looked for.
pub open spec fn markers() -> Seq<(Seq<char>, BuildSystem)> {
    seq![
        ("CMakeLists.txt"@, BuildSystem::Cmake),
        ("meson.build"@, BuildSystem::Meson),
        ("configure.ac"@, BuildSystem::Autotools),
        ("configure"@, BuildSystem::Autotools),
        ("GNUmakefile"@, BuildSystem::Make),
        ("makefile"@, BuildSystem::Make),
        ("justfile"@, BuildSystem::Just),
        ("Justfile"@, BuildSystem::Just),
        ("Makefile"@, BuildSystem::Make),
        ("xmake.lua"@, BuildSystem::Xmake),
        ("build.ninja"@, BuildSystem::Ninja),
    ]
}

/// The first build system of which a marker is among some files.
pub open spec fn first_marked(marks: Seq<(Seq<char>, BuildSystem)>, files: Seq<Seq<char>>) -> Option<
    BuildSystem,
>
    decreases marks.len(),
{
    if marks.len() == 0 {
        None
    } else if files.contains(marks[0].0) {
        Some(marks[0].1)
    } else {
        first_marked(marks.skip(1), files)
    }
}

/// Best-effort build-system detection for an added dependency, by the marker files
/// at the top of its directory.
pub fn guess_build_system(files: &[String]) -> (out: Option<BuildSystem>)
    ensures
        out == first_marked(markers(), text::texts(files@)),
{
    let marks: [(&str, BuildSystem); 11] = [
        ("CMakeLists.txt", BuildSystem::Cmake),
        ("meson.build", BuildSystem::Meson),
        ("configure.ac", BuildSystem::Autotools),
        ("configure", BuildSystem::Autotools),
        ("GNUmakefile", BuildSystem::Make),
        ("makefile", BuildSystem::Make),
        ("justfile", BuildSystem::Just),
        ("Justfile", BuildSystem::Just),
        ("Makefile", BuildSystem::Make),
        ("xmake.lua", BuildSystem::Xmake),
        ("build.ninja", BuildSystem::Ninja),
    ];
    let ghost all = markers();
    let mut i: usize = 0;
    proof {
        assert(all.skip(0) =~= all);
        assert(marks@.len() == 11);
        assert forall|k: int| 0 <= k < 11 implies (#[trigger] all[k]) == (
            marks@[k].0@,
            marks@[k].1,
        ) by {}
    }
    while i < 11
        invariant
            i <= 11,
            marks@.len() == 11,
            all.len() == 11,
            forall|k: int| 0 <= k < 11 ==> (#[trigger] all[k]) == (marks@[k].0@, marks@[k].1),
            first_marked(markers(), text::texts(files@)) == first_marked(
                all.skip(i as int),
                text::texts(files@),
            ),
        decreases 11 - i,
    {
        proof {
            assert(all.skip(i as int)[0] == all[i as int]);
            assert(all.skip(i as int).skip(1) =~= all.skip(i + 1));
        }
        if text::has_text(files, marks[i].0) {
            return Some(marks[i].1);
        }
        i += 1;
    }
    None
}

/// A dependency to add.
#[derive(Debug)]
pub struct AddArgs {
    pub local_or_remote: LocalOrRemote,
    pub path_or_url: String,
    pub build: Option<BuildSystem>,
    pub transport: Option<Transport>,
    pub git_ref: Option<String>,
    pub force: bool,
}

/// The model of [`AddArgs`].
pub struct AddArgsV {
    pub local_or_remote: LocalOrRemote,
    pub path_or_url: Seq<char>,
    pub build: Option<BuildSystem>,
    pub transport: Option<Transport>,
    pub git_ref: Option<Seq<char>>,
    pub force: bool,
}

impl View for AddArgs {
    type V = AddArgsV;

    open spec fn view(&self) -> AddArgsV {
        AddArgsV {
            local_or_remote: self.local_or_remote,
            path_or_url: self.path_or_url@,
            build: self.build,
            transport: self.transport,
            git_ref: text::opt(self.git_ref),
            force: self.force,
        }
    }
}

/// The name a dependency is added under: the last part of its path.
pub open spec fn added_name(a: AddArgsV) -> Seq<char> {
    text::last_part(a.path_or_url, text::Cut::At('/'))
}

/// The transport a dependency is fetched by.
pub open spec fn added_transport(a: AddArgsV) -> Transport {
    match a.transport {
        Some(t) => t,
        None => Transport::Ssh,
    }
}

/// The repository a dependency is cloned from; a local one is not cloned.
pub open spec fn added_url(a: AddArgsV) -> Option<Seq<char>> {
    if a.local_or_remote == LocalOrRemote::Local {
        None
    } else {
        Some(
            git::url(
                host_name(a.local_or_remote),
                a.path_or_url,
                transport_name(added_transport(a)),
            ),
        )
    }
}

/// What is written for the build system of a dependency: what was asked for, or
/// what its files give away; nothing for a local one.
pub open spec fn added_build(a: AddArgsV, guess: Option<BuildSystem>) -> Option<Seq<char>> {
    if a.local_or_remote == LocalOrRemote::Local {
        None
    } else {
        match text::either(a.build, guess) {
            Some(b) => Some(system_name(b)),
            None => None,
        }
    }
}

/// What the lockfile records as the remote of a dependency.
pub open spec fn added_remote(a: AddArgsV) -> Option<RemoteV> {
    match a.local_or_remote {
        LocalOrRemote::Local => None,
        LocalOrRemote::Codeberg => Some(RemoteV::Codeberg(a.path_or_url)),
        LocalOrRemote::Github => Some(RemoteV::GitHub(a.path_or_url)),
        LocalOrRemote::Bitbucket => Some(RemoteV::BitBucket(a.path_or_url)),
        LocalOrRemote::Git => Some(RemoteV::Git(a.path_or_url)),
    }
}

/// The lockfile entry of an added dependency: the branch at HEAD, or the ref that
/// was asked for where HEAD is on none.
pub open spec fn added_entry(a: AddArgsV, head_ref: Option<Seq<char>>, commit: Seq<char>) -> LockedDepV {
    LockedDepV {
        remote: added_remote(a),
        transport: Some(
            match added_transport(a) {
                Transport::Ssh => proj_parse::Transport::Ssh,
                Transport::Https => proj_parse::Transport::Https,
            },
        ),
        git_ref: text::either(head_ref, a.git_ref),
        commit,
    }
}

/// The node of a dependency, as KDL.
pub open spec fn fragment(a: AddArgsV, guess: Option<BuildSystem>) -> Seq<char> {
    added_name(a) + " {"@ + (if a.local_or_remote == LocalOrRemote::Local {
        "\n  local \""@ + a.path_or_url + "\""@
    } else {
        "\n  remote "@ + host_name(a.local_or_remote) + " \""@ + a.path_or_url + "\""@
    }) + (match a.git_ref {
        Some(r) => "\n  ref "@ + r,
        None => Seq::empty(),
    }) + (if a.local_or_remote == LocalOrRemote::Local {
        Seq::empty()
    } else {
        "\n  transport "@ + transport_name(added_transport(a))
    }) + (match added_build(a, guess) {
        Some(b) => "\n  build "@ + b,
        None => Seq::empty(),
    }) + "\n}"@
}

impl AddArgs {
    /// The name the dependency is added under.
    pub fn name(&self) -> (out: String)
        ensures
            out@ == added_name(self@),
    {
        text::last_part_of(self.path_or_url.as_str(), text::Cut::At('/'))
    }

    /// Whether the dependency lies on this machine.
    pub fn is_local(&self) -> (res: bool)
        ensures
            res == (self@.local_or_remote == LocalOrRemote::Local),
    {
        match self.local_or_remote {
            LocalOrRemote::Local => true,
            _ => false,
        }
    }

    fn transport_or_ssh(&self) -> (out: Transport)
        ensures
            out == added_transport(self@),
    {
        match self.transport {
            Some(t) => t,
            None => Transport::Ssh,
        }
    }

    /// The repository the dependency is cloned from.
    pub fn url(&self) -> (out: Option<String>)
        ensures
            text::opt(out) == added_url(self@),
    {
        if self.is_local() {
            None
        } else {
            Some(
                git::remote_url(
                    self.local_or_remote.name(),
                    self.path_or_url.as_str(),
                    self.transport_or_ssh().name(),
                ),
            )
        }
    }

    /// The node of the dependency, as KDL. `guess` is the build system that its
    /// files give away.
    pub fn fragment(&self, guess: Option<BuildSystem>) -> (out: String)
        ensures
            out@ == fragment(self@, guess),
    {
        let local = self.is_local();
        let mut out = self.name();
        out.append(" {");
        let ghost g1 = out@;
        if local {
            let line = text::cat3("\n  local \"", self.path_or_url.as_str(), "\"");
            out.append(line.as_str());
        } else {
            let head = text::cat3("\n  remote ", self.local_or_remote.name(), " \"");
            let line = text::cat3(head.as_str(), self.path_or_url.as_str(), "\"");
            out.append(line.as_str());
        }
        let ghost g2 = out@;
        if let Some(r) = &self.git_ref {
            let line = text::cat("\n  ref ", r.as_str());
            out.append(line.as_str());
        } else {
            proof {
                assert(g2 + Seq::<char>::empty() =~= g2);
            }
        }
        let ghost g3 = out@;
        if !local {
            let line = text::cat("\n  transport ", self.transport_or_ssh().name());
            out.append(line.as_str());
            let ghost g4 = out@;
            let build = match self.build {
                Some(b) => Some(b),
                None => guess,
            };
            if let Some(b) = build {
                let line = text::cat("\n  build ", b.name());
                out.append(line.as_str());
            } else {
                proof {
                    assert(g4 + Seq::<char>::empty() =~= g4);
                }
            }
        } else {
            proof {
                assert(g3 + Seq::<char>::empty() =~= g3);
            }
        }
        out.append("\n}");
        out
    }

    /// Pin the added dependency at the commit its clone was left at.
    pub fn record(&self, lock: &mut LockFile, head_ref: &Option<String>, commit: String)
        ensures
            final(lock)@ == if self@.local_or_remote == LocalOrRemote::Local {
                old(lock)@
            } else {
                names::put(
                    old(lock)@,
                    added_name(self@),
                    added_entry(self@, text::opt(*head_ref), commit@),
                )
            },
    {
        let path = self.path_or_url.clone();
        let remote = match self.local_or_remote {
            LocalOrRemote::Local => return,
            LocalOrRemote::Codeberg => Remote::Codeberg(path),
            LocalOrRemote::Github => Remote::GitHub(path),
            LocalOrRemote::Bitbucket => Remote::BitBucket(path),
            LocalOrRemote::Git => Remote::Git(path),
        };
        let name = self.name();
        let git_ref = text::either_text(head_ref, &self.git_ref);
        lock.lock(
            name.as_str(),
            Some(remote),
            Some(self.transport_or_ssh().parsed()),
            git_ref,
            commit,
        );
    }
}

// ---------------------------------------------------------------------------
// Editing the manifest
// ---------------------------------------------------------------------------

/// The `project` node of a document.
pub open spec fn project_of(ts: Seq<Tree>) -> Tree {
    ts[document::find_node(ts, "project"@)]
}

/// Nodes with a `dependencies` node among them: an empty one is put at the end
/// where there is none.
pub open spec fn with_dependencies_node(ts: Seq<Tree>) -> Seq<Tree> {
    if document::has_node(ts, "dependencies"@) {
        ts
    } else {
        ts.push(
            Tree {
                name: "dependencies"@,
                lead: Seq::empty(),
                entries: Seq::empty(),
                children: Some(Seq::empty()),
            },
        )
    }
}

/// The dependencies among the children of a project.
pub open spec fn dependencies_of(kids: Seq<Tree>) -> Seq<Tree> {
    let all = with_dependencies_node(kids);
    document::kids(all[document::find_node(all, "dependencies"@)])
}

/// The children of a project with other dependencies.
pub open spec fn with_dependencies(kids: Seq<Tree>, deps: Seq<Tree>) -> Seq<Tree> {
    let all = with_dependencies_node(kids);
    let j = document::find_node(all, "dependencies"@);
    all.update(j, Tree { children: Some(deps), ..all[j] })
}

/// A document whose project has other children.
pub open spec fn with_project(ts: Seq<Tree>, kids: Seq<Tree>) -> Seq<Tree> {
    ts.update(
        document::find_node(ts, "project"@),
        Tree { children: Some(kids), ..project_of(ts) },
    )
}

/// Whether a manifest has a dependency.
pub open spec fn has_dependency(ts: Seq<Tree>, name: Seq<char>) -> bool {
    document::has_node(ts, "project"@) && document::has_node(
        dependencies_of(document::kids(project_of(ts))),
        name,
    )
}

/// Whether a parsed manifest has a dependency.
pub fn holds_dependency(doc: &KdlDocument, name: &str) -> (res: bool)
    ensures
        res == has_dependency(document::tree(*doc), name@),
{
    let i: usize = document::position_of_node(doc, "project");
    if i >= document::node_count(doc) {
        return false;
    }
    let project = document::node_at(doc, i);
    let kids = match document::children_of(&project) {
        Some(d) => d,
        None => document::new_document(),
    };
    let ghost kv = document::tree(kids);
    proof {
        document::lemma_find_node(kv, "dependencies"@);
        document::lemma_find_node(document::tree(*doc), "project"@);
        if !document::has_node(kv, "dependencies"@) {
            let all = with_dependencies_node(kv);
            document::lemma_find_node_is(all, "dependencies"@, kv.len() as int);
            document::lemma_find_node(Seq::<Tree>::empty(), name@);
        }
    }
    let j: usize = document::position_of_node(&kids, "dependencies");
    if j >= document::node_count(&kids) {
        return false;
    }
    let deps = document::node_at(&kids, j);
    match document::children_of(&deps) {
        Some(d) => document::position_of_node(&d, name) < document::node_count(&d),
        None => {
            proof {
                document::lemma_find_node(Seq::<Tree>::empty(), name@);
            }
            false
        },
    }
}

/// Whether a manifest's text has a dependency, or why it is no manifest.
pub fn dependency_exists(manifest: &str, name: &str) -> (out: Result<bool, Fault>)
    ensures
        match out {
            Ok(b) => document::parsed(manifest@) matches Ok(ts) && b == has_dependency(ts, name@),
            Err(e) => document::parsed(manifest@) matches Err(m) && e@ == diag::plain(m),
        },
{
    match document::parse_document(manifest) {
        Ok(doc) => Ok(holds_dependency(&doc, name)),
        Err(e) => Err(Fault::plain(e)),
    }
}

/// A manifest with a dependency in it, in place of any of the same name.
pub open spec fn added(ts: Seq<Tree>, name: Seq<char>, node: Tree) -> Seq<Tree> {
    let kids = document::kids(project_of(ts));
    with_project(
        ts,
        with_dependencies(kids, document::other_nodes(dependencies_of(kids), name).push(node)),
    )
}

/// Why a dependency cannot be added to a manifest.
pub open spec fn add_fault(ts: Seq<Tree>, name: Seq<char>, force: bool) -> Option<FaultV> {
    if !document::has_node(ts, "project"@) {
        Some(
            diag::hinted(
                "No project node in conjure.kdl"@,
                "Generate a conjure.kdl using `conjure init`"@,
            ),
        )
    } else if !force && has_dependency(ts, name) {
        Some(
            diag::hinted(
                "Dependency `"@ + name + "` already exists"@,
                "Use --force to replace"@,
            ),
        )
    } else {
        None
    }
}

fn check_add(doc: &KdlDocument, name: &str, force: bool) -> (out: Result<(), Fault>)
    ensures
        match out {
            Ok(()) => add_fault(document::tree(*doc), name@, force) is None,
            Err(e) => add_fault(document::tree(*doc), name@, force) == Some(e@),
        },
{
    if document::position_of_node(doc, "project") >= document::node_count(doc) {
        return Err(
            Fault::hinted(
                "No project node in conjure.kdl".to_owned(),
                "Generate a conjure.kdl using `conjure init`",
            ),
        );
    }
    if !force && holds_dependency(doc, name) {
        return Err(
            Fault::hinted(
                text::cat3("Dependency `", name, "` already exists"),
                "Use --force to replace",
            ),
        );
    }
    Ok(())
}

/// Insert a dependency node into a manifest, or replace the one of its name.
pub fn add_dependency(doc: &mut KdlDocument, name: &str, node: KdlNode, force: bool) -> (out: Result<
    (),
    Fault,
>)
    requires
        document::node_tree(node).len() == 1,
    ensures
        match out {
            Ok(()) => add_fault(document::tree(*old(doc)), name@, force) is None && document::tree(
                *final(doc),
            ) == added(document::tree(*old(doc)), name@, document::node_tree(node)[0]),
            Err(e) => add_fault(document::tree(*old(doc)), name@, force) == Some(e@)
                && document::tree(*final(doc)) == document::tree(*old(doc)),
        },
{
    match check_add(doc, name, force) {
        Ok(()) => {},
        Err(e) => return Err(e),
    }
    let i: usize = document::position_of_node(doc, "project");
    let mut project = document::node_at(doc, i);
    let mut kids = match document::children_of(&project) {
        Some(d) => d,
        None => document::new_document(),
    };
    let ghost kv = document::tree(kids);
    let j: usize = document::position_of_node(&kids, "dependencies");
    if j >= document::node_count(&kids) {
        let mut n = document::new_node("dependencies");
        document::set_children(&mut n, document::new_document());
        document::push_node(&mut kids, n);
        proof {
            document::lemma_find_node(kv, "dependencies"@);
            document::lemma_find_node_is(
                with_dependencies_node(kv),
                "dependencies"@,
                kv.len() as int,
            );
        }
    }
    proof {
        assert(document::tree(kids) == with_dependencies_node(kv));
    }
    let mut deps = document::node_at(&kids, j);
    let mut children = match document::children_of(&deps) {
        Some(d) => d,
        None => document::new_document(),
    };
    proof {
        assert(document::tree(children) == dependencies_of(kv));
    }
    document::drop_nodes(&mut children, name);
    document::push_node(&mut children, node);
    document::set_children(&mut deps, children);
    document::set_node(&mut kids, j, deps);
    document::set_children(&mut project, kids);
    document::set_node(doc, i, project);
    Ok(())
}

/// A manifest without a dependency; the `dependencies` node goes with the last
/// one.
pub open spec fn removed(ts: Seq<Tree>, name: Seq<char>) -> Seq<Tree> {
    let kids = document::kids(project_of(ts));
    let rest = document::other_nodes(dependencies_of(kids), name);
    with_project(
        ts,
        if rest.len() == 0 {
            document::other_nodes(kids, "dependencies"@)
        } else {
            with_dependencies(kids, rest)
        },
    )
}

/// Why a dependency cannot be removed from a manifest.
pub open spec fn remove_fault(ts: Seq<Tree>, name: Seq<char>) -> Option<FaultV> {
    if !document::has_node(ts, "project"@) {
        Some(
            diag::hinted(
                "No project node in conjure.kdl"@,
                "Use `conjure init` to generate a new conjure.kdl"@,
            ),
        )
    } else {
        match project_of(ts).children {
            None => Some(
                diag::hinted(
                    "No children in project node, is your project malformed?"@,
                    "Verify the conjure.kdl to make sure nothing is wrong, try to generate a new one using `conjure init`"@,
                ),
            ),
            Some(kids) => if !document::has_node(kids, "dependencies"@) {
                Some(diag::plain("No dependency node in project, nothing to remove"@))
            } else {
                match kids[document::find_node(kids, "dependencies"@)].children {
                    None => Some(
                        diag::plain("No children in dependencies node, nothing to remove"@),
                    ),
                    Some(deps) => if !document::has_node(deps, name) {
                        Some(
                            diag::hinted(
                                "Dependency `"@ + name + "` not found"@,
                                "Double check if the dependency exists, if not, use `conjure add` to add it"@,
                            ),
                        )
                    } else {
                        None
                    },
                }
            },
        }
    }
}

/// Take a dependency out of a manifest.
pub fn remove_dependency(doc: &mut KdlDocument, name: &str) -> (out: Result<(), Fault>)
    ensures
        match out {
            Ok(()) => remove_fault(document::tree(*old(doc)), name@) is None && document::tree(
                *final(doc),
            ) == removed(document::tree(*old(doc)), name@),
            Err(e) => remove_fault(document::tree(*old(doc)), name@) == Some(e@) && document::tree(
                *final(doc),
            ) == document::tree(*old(doc)),
        },
{
    let i: usize = document::position_of_node(doc, "project");
    if i >= document::node_count(doc) {
        return Err(
            Fault::hinted(
                "No project node in conjure.kdl".to_owned(),
                "Use `conjure init` to generate a new conjure.kdl",
            ),
        );
    }
    let mut project = document::node_at(doc, i);
    let mut kids = match document::children_of(&project) {
        Some(d) => d,
        None => return Err(
            Fault::hinted(
                "No children in project node, is your project malformed?".to_owned(),
                "Verify the conjure.kdl to make sure nothing is wrong, try to generate a new one using `conjure init`",
            ),
        ),
    };
    let j: usize = document::position_of_node(&kids, "dependencies");
    if j >= document::node_count(&kids) {
        return Err(
            Fault::plain("No dependency node in project, nothing to remove".to_owned()),
        );
    }
    let mut deps = document::node_at(&kids, j);
    let mut children = match document::children_of(&deps) {
        Some(d) => d,
        None => return Err(
            Fault::plain("No children in dependencies node, nothing to remove".to_owned()),
        ),
    };
    if document::position_of_node(&children, name) >= document::node_count(&children) {
        return Err(
            Fault::hinted(
                text::cat3("Dependency `", name, "` not found"),
                "Double check if the dependency exists, if not, use `conjure add` to add it",
            ),
        );
    }
    document::drop_nodes(&mut children, name);
    if document::node_count(&children) == 0 {
        document::drop_nodes(&mut kids, "dependencies");
    } else {
        document::set_children(&mut deps, children);
        document::set_node(&mut kids, j, deps);
    }
    document::set_children(&mut project, kids);
    document::set_node(doc, i, project);
    Ok(())
}

/// What an edited manifest is written back as: formatted, its braces laid out, and
/// with the quotes it had before.
pub open spec fn saved(before: Seq<char>, doc: KdlDocument) -> Seq<char> {
    quotes::restored(before, document::laid_out(doc))
}

/// The text an edited manifest is written back as.
pub fn save_edit(before: &str, doc: KdlDocument) -> (out: String)
    ensures
        out@ == saved(before@, doc),
{
    let formatted = document::document_text(doc);
    restore_quotes(before, formatted.as_str())
}

/// Why a manifest's text cannot have a dependency added to it.
pub open spec fn edit_fault(manifest: Seq<char>, a: AddArgsV, guess: Option<BuildSystem>) -> Option<
    FaultV,
> {
    match document::parsed(manifest) {
        Err(m) => Some(diag::plain(m)),
        Ok(ts) => match add_fault(ts, added_name(a), a.force) {
            Some(f) => Some(f),
            None => match document::parsed_node(fragment(a, guess)) {
                Err(m) => Some(diag::plain(m)),
                Ok(_) => None,
            },
        },
    }
}

/// Why a dependency is not even fetched: the manifest cannot be read, or has it
/// already.
pub open spec fn refused(manifest: Seq<char>, a: AddArgsV) -> Option<FaultV> {
    if a.force {
        None
    } else {
        match document::parsed(manifest) {
            Err(m) => Some(diag::plain(m)),
            Ok(ts) => if has_dependency(ts, added_name(a)) {
                Some(
                    diag::hinted(
                        "Dependency `"@ + added_name(a) + "` already exists"@,
                        "Use --force to replace the dependency"@,
                    ),
                )
            } else {
                None
            },
        }
    }
}

/// Decide what `conjure add` clones before it edits the manifest: nothing for a
/// local dependency, or a refusal.
pub fn handle_add(manifest: &str, args: &AddArgs) -> (out: Result<Option<String>, Fault>)
    ensures
        match out {
            Ok(url) => refused(manifest@, args@) is None && text::opt(url) == added_url(args@),
            Err(e) => refused(manifest@, args@) == Some(e@),
        },
{
    if !args.force {
        let name = args.name();
        match dependency_exists(manifest, name.as_str()) {
            Err(e) => return Err(e),
            Ok(true) => return Err(
                Fault::hinted(
                    text::cat3("Dependency `", name.as_str(), "` already exists"),
                    "Use --force to replace the dependency",
                ),
            ),
            Ok(false) => {},
        }
    }
    Ok(args.url())
}

/// Insert or replace a dependency in the text of a manifest: the node is built
/// from the arguments, and every other node stays as it is. The manifest is laid out
/// anew, with the quotes it had before. A dependency with a plain name is in it from
/// there on.
pub fn edit_dependencies(manifest: &str, args: &AddArgs, guess: Option<BuildSystem>) -> (out: Result<
    String,
    Fault,
>)
    ensures
        match out {
            Ok(s) => edit_fault(manifest@, args@, guess) is None && exists|doc: KdlDocument|
                document::tree(doc) == added(
                    document::parsed(manifest@)->Ok_0,
                    added_name(args@),
                    document::parsed_node(fragment(args@, guess))->Ok_0[0],
                ) && (document::is_plain_name(added_name(args@)) ==> has_dependency(
                    document::tree(doc),
                    added_name(args@),
                )) && s@ == #[trigger] saved(manifest@, doc),
            Err(e) => edit_fault(manifest@, args@, guess) == Some(e@),
        },
{
    let mut doc = match document::parse_document(manifest) {
        Ok(d) => d,
        Err(e) => return Err(Fault::plain(e)),
    };
    let name = args.name();
    let text = args.fragment(guess);
    match check_add(&doc, name.as_str(), args.force) {
        Ok(()) => {},
        Err(e) => return Err(e),
    }
    let node = match document::parse_node(text.as_str()) {
        Ok(n) => n,
        Err(e) => return Err(Fault::plain(e)),
    };
    match add_dependency(&mut doc, name.as_str(), node, args.force) {
        Ok(()) => {},
        Err(e) => return Err(e),
    }
    let ghost edited = doc;
    proof {
        let n = added_name(args@);
        let ts = document::parsed(manifest@)->Ok_0;
        if document::is_plain_name(n) {
            reveal_strlit(" {");
            reveal_strlit(" ");
            assert(fragment(args@, guess).take(n.len() as int + 1) =~= n + " "@);
            assert(document::opens_with(fragment(args@, guess), n));
            law_added_is_there(
                ts,
                n,
                document::parsed_node(fragment(args@, guess))->Ok_0[0],
                n,
            );
        }
    }
    let s = save_edit(manifest, doc);
    proof {
        assert(s@ == saved(manifest@, edited));
    }
    Ok(s)
}

/// Take a dependency out of the text of a manifest.
pub fn handle_remove(manifest: &str, name: &str) -> (out: Result<String, Fault>)
    ensures
        match out {
            Ok(s) => document::parsed(manifest@) matches Ok(ts) && remove_fault(ts, name@) is None
                && exists|doc: KdlDocument|
                document::tree(doc) == removed(ts, name@) && s@ == #[trigger] saved(manifest@, doc),
            Err(e) => match document::parsed(manifest@) {
                Ok(ts) => remove_fault(ts, name@) == Some(e@),
                Err(m) => e@ == diag::plain(m),
            },
        },
{
    let mut doc = match document::parse_document(manifest) {
        Ok(d) => d,
        Err(e) => return Err(Fault::plain(e)),
    };
    match remove_dependency(&mut doc, name) {
        Ok(()) => {},
        Err(e) => return Err(e),
    }
    let ghost edited = doc;
    let s = save_edit(manifest, doc);
    proof {
        assert(s@ == saved(manifest@, edited));
    }
    Ok(s)
}

proof fn lemma_with_project(ts: Seq<Tree>, kids: Seq<Tree>)
    requires
        document::has_node(ts, "project"@),
    ensures
        document::has_node(with_project(ts, kids), "project"@),
        document::find_node(with_project(ts, kids), "project"@) == document::find_node(
            ts,
            "project"@,
        ),
        project_of(with_project(ts, kids)) == (Tree { children: Some(kids), ..project_of(ts) }),
{
    let i = document::find_node(ts, "project"@);
    let out = with_project(ts, kids);
    document::lemma_find_node(ts, "project"@);
    assert forall|j: int| 0 <= j < i implies (#[trigger] out[j]).name != "project"@ by {
        assert(ts[j].name != "project"@);
    }
    document::lemma_find_node_is(out, "project"@, i);
}

proof fn lemma_with_dependencies(kids: Seq<Tree>, deps: Seq<Tree>)
    ensures
        document::has_node(with_dependencies(kids, deps), "dependencies"@),
        document::find_node(with_dependencies(kids, deps), "dependencies"@)
            == document::find_node(with_dependencies_node(kids), "dependencies"@),
        dependencies_of(with_dependencies(kids, deps)) == deps,
{
    let all = with_dependencies_node(kids);
    document::lemma_find_node(kids, "dependencies"@);
    if !document::has_node(kids, "dependencies"@) {
        document::lemma_find_node_is(all, "dependencies"@, kids.len() as int);
    }
    let j = document::find_node(all, "dependencies"@);
    let out = with_dependencies(kids, deps);
    document::lemma_find_node(all, "dependencies"@);
    assert forall|k: int| 0 <= k < j implies (#[trigger] out[k]).name != "dependencies"@ by {
        assert(all[k].name != "dependencies"@);
    }
    document::lemma_find_node_is(out, "dependencies"@, j);
}

proof fn lemma_no_dependencies(kids: Seq<Tree>)
    requires
        !document::has_node(kids, "dependencies"@),
    ensures
        dependencies_of(kids) == Seq::<Tree>::empty(),
{
    document::lemma_find_node(kids, "dependencies"@);
    document::lemma_find_node_is(
        with_dependencies_node(kids),
        "dependencies"@,
        kids.len() as int,
    );
}

proof fn lemma_has_pushed(ts: Seq<Tree>, t: Tree, name: Seq<char>)
    ensures
        document::has_node(ts.push(t), name) == (document::has_node(ts, name) || t.name == name),
{
    document::lemma_find_node(ts, name);
    let p = document::find_node(ts, name);
    let out = ts.push(t);
    if p < ts.len() {
        document::lemma_find_node_is(out, name, p);
    } else if t.name == name {
        document::lemma_find_node_is(out, name, ts.len() as int);
    } else {
        assert forall|j: int| 0 <= j < out.len() implies (#[trigger] out[j]).name != name by {
            if j < ts.len() {
                assert(ts[j].name != name);
            }
        }
        document::lemma_find_node_is(out, name, out.len() as int);
    }
}

proof fn lemma_has_other(ts: Seq<Tree>, name: Seq<char>, other: Seq<char>)
    requires
        name != other,
    ensures
        document::has_node(document::other_nodes(ts, name), other) == document::has_node(ts, other),
    decreases ts.len(),
{
    reveal(Seq::filter);
    if ts.len() > 0 {
        let front = ts.drop_last();
        let t = ts.last();
        lemma_has_other(front, name, other);
        assert(ts =~= front.push(t));
        lemma_has_pushed(front, t, other);
        if t.name != name {
            assert(document::other_nodes(ts, name) =~= document::other_nodes(front, name).push(t));
            lemma_has_pushed(document::other_nodes(front, name), t, other);
        } else {
            assert(document::other_nodes(ts, name) =~= document::other_nodes(front, name));
        }
    } else {
        assert(document::other_nodes(ts, name) =~= ts);
    }
}

/// A dependency that was added is there, and every other is there as it was
/// before.
pub proof fn law_added_is_there(ts: Seq<Tree>, name: Seq<char>, node: Tree, other: Seq<char>)
    requires
        document::has_node(ts, "project"@),
        node.name == name,
    ensures
        has_dependency(added(ts, name, node), name),
        other != name ==> has_dependency(added(ts, name, node), other) == has_dependency(ts, other),
{
    let kids = document::kids(project_of(ts));
    let old_deps = document::other_nodes(dependencies_of(kids), name);
    let new_deps = old_deps.push(node);
    lemma_with_project(ts, with_dependencies(kids, new_deps));
    lemma_with_dependencies(kids, new_deps);
    lemma_has_pushed(old_deps, node, name);
    if other != name {
        lemma_has_pushed(old_deps, node, other);
        lemma_has_other(dependencies_of(kids), name, other);
    }
}

/// A dependency that was removed is gone, and every other is there as it was
/// before.
pub proof fn law_removed_is_gone(ts: Seq<Tree>, name: Seq<char>, other: Seq<char>)
    requires
        remove_fault(ts, name) is None,
    ensures
        !has_dependency(removed(ts, name), name),
        other != name ==> has_dependency(removed(ts, name), other) == has_dependency(ts, other),
{
    let kids = document::kids(project_of(ts));
    let deps = dependencies_of(kids);
    let rest = document::other_nodes(deps, name);
    document::lemma_other_nodes(deps, name);
    if other != name {
        lemma_has_other(deps, name, other);
    }
    if rest.len() == 0 {
        let left = document::other_nodes(kids, "dependencies"@);
        lemma_with_project(ts, left);
        document::lemma_other_nodes(kids, "dependencies"@);
        lemma_no_dependencies(left);
        document::lemma_find_node(Seq::<Tree>::empty(), name);
        document::lemma_find_node(rest, other);
    } else {
        lemma_with_project(ts, with_dependencies(kids, rest));
        lemma_with_dependencies(kids, rest);
    }
}

/// Removing a dependency that was just added gives back the manifest, down to the
/// place of every node. An empty `dependencies` node is the one thing that is not
/// given back: it goes with the last dependency.
pub proof fn law_remove_undoes_add(ts: Seq<Tree>, name: Seq<char>, node: Tree)
    requires
        document::has_node(ts, "project"@),
        project_of(ts).children is Some,
        !has_dependency(ts, name),
        node.name == name,
        document::has_node(document::kids(project_of(ts)), "dependencies"@) ==> dependencies_of(
            document::kids(project_of(ts)),
        ).len() > 0,
    ensures
        removed(added(ts, name, node), name) == ts,
{
    let kids = document::kids(project_of(ts));
    let deps = dependencies_of(kids);
    let mid = added(ts, name, node);
    let i = document::find_node(ts, "project"@);
    document::lemma_find_node(ts, "project"@);
    document::lemma_other_nodes(deps, name);
    let new_deps = deps.push(node);
    let new_kids = with_dependencies(kids, new_deps);
    assert(mid == with_project(ts, new_kids));
    lemma_with_project(ts, new_kids);
    lemma_with_dependencies(kids, new_deps);
    document::lemma_other_nodes_push(deps, node, name);
    assert(document::other_nodes(new_deps, name) == deps);
    if document::has_node(kids, "dependencies"@) {
        let j = document::find_node(kids, "dependencies"@);
        document::lemma_find_node(kids, "dependencies"@);
        let back = with_dependencies(new_kids, deps);
        assert(back =~= kids);
        assert(with_project(mid, kids) =~= ts);
    } else {
        lemma_no_dependencies(kids);
        document::lemma_find_node(kids, "dependencies"@);
        let all = with_dependencies_node(kids);
        document::lemma_find_node_is(all, "dependencies"@, kids.len() as int);
        let d = Tree { children: Some(new_deps), ..all[kids.len() as int] };
        assert(new_kids =~= kids.push(d));
        document::lemma_other_nodes_push(kids, d, "dependencies"@);
        document::lemma_other_nodes(kids, "dependencies"@);
        assert(document::other_nodes(new_kids, "dependencies"@) == kids);
        assert(with_project(mid, kids) =~= ts);
    }
}

// ---------------------------------------------------------------------------
// Locking and updating
// ---------------------------------------------------------------------------

/// What is done about the dependencies of a project, in manifest order: the names
/// of those that are remote.
pub open spec fn remote_names(deps: Seq<(Seq<char>, DependencyV)>) -> Seq<Seq<char>> {
    names::keys(deps.filter(|e: (Seq<char>, DependencyV)| e.1.remote is Some))
}

/// Whether a project has a dependency.
pub open spec fn declares(deps: Option<Seq<(Seq<char>, DependencyV)>>, name: Seq<char>) -> bool {
    deps matches Some(d) && names::holds(d, name)
}

/// The pins whose dependency a project still has.
pub open spec fn kept_pins(
    lock: Seq<(Seq<char>, LockedDepV)>,
    deps: Option<Seq<(Seq<char>, DependencyV)>>,
) -> Seq<(Seq<char>, LockedDepV)> {
    lock.filter(|e: (Seq<char>, LockedDepV)| declares(deps, e.0))
}

/// Prune the lockfile to the dependencies a project has, and tell which of them
/// are to be locked; none at all where the project has no dependencies.
pub fn handle_lock(project: &Project, lock: &mut LockFile) -> (out: Option<Vec<String>>)
    ensures
        final(lock)@ == kept_pins(old(lock)@, project@.dependencies),
        match project@.dependencies {
            Some(d) => text::opt_texts(out) == Some(remote_names(d)),
            None => out is None,
        },
{
    let deps = &project.dependencies;
    let ghost before = lock@;
    let keeps = |name: &str| -> (b: bool)
        ensures
            b == declares(project@.dependencies, name@),
        {
            match deps {
                Some(d) => d.contains_key(name),
                None => false,
            }
        };
    lock.retain(keeps);
    proof {
        let keep = choose|keep: Seq<bool>| #[trigger]
            names::picked(before, keep) == lock@ && names::answered_all(keeps, before, keep);
        let test = |name: Seq<char>| declares(project@.dependencies, name);
        names::law_retain(keeps, before, keep, test);
        let by_test = |e: (Seq<char>, LockedDepV)| test(e.0);
        let by_deps = |e: (Seq<char>, LockedDepV)| declares(project@.dependencies, e.0);
        assert(by_test =~= by_deps);
    }
    match &project.dependencies {
        None => None,
        Some(d) => {
            let ghost dv = d@;
            let ghost pred = |e: (Seq<char>, DependencyV)| e.1.remote is Some;
            let mut out = text::none();
            let mut i: usize = 0;
            proof {
                reveal(Seq::filter);
                assert(dv.take(0) =~= Seq::empty());
                assert(names::keys(dv.take(0).filter(pred)) =~= Seq::empty());
            }
            while i < d.len()
                invariant
                    i <= dv.len(),
                    dv == d@,
                    pred == (|e: (Seq<char>, DependencyV)| e.1.remote is Some),
                    text::texts(out@) == names::keys(dv.take(i as int).filter(pred)),
                decreases dv.len() - i,
            {
                proof {
                    reveal(Seq::filter);
                    assert(dv.take(i + 1).drop_last() =~= dv.take(i as int));
                    assert(dv.take(i + 1).last() == dv[i as int]);
                }
                if d.value_at(i).remote.is_some() {
                    let ghost kept = dv.take(i as int).filter(pred);
                    text::push_text(&mut out, d.name_at(i));
                    proof {
                        assert(names::keys(kept.push(dv[i as int])) =~= names::keys(kept).push(
                            dv[i as int].0,
                        ));
                    }
                }
                i += 1;
            }
            proof {
                assert(dv.take(i as int) =~= dv);
            }
            Some(out)
        },
    }
}

/// After `conjure lock` pruned the lockfile, the dependencies that the project
/// still has are pinned as they were, and nothing else is.
pub proof fn law_lock_prunes(
    lock: Seq<(Seq<char>, LockedDepV)>,
    deps: Option<Seq<(Seq<char>, DependencyV)>>,
    name: Seq<char>,
)
    ensures
        names::lookup(kept_pins(lock, deps), name) == (if declares(deps, name) {
            names::lookup(lock, name)
        } else {
            None
        }),
    decreases lock.len(),
{
    reveal(Seq::filter);
    let kept = kept_pins(lock, deps);
    if lock.len() > 0 {
        let front = lock.drop_last();
        law_lock_prunes(front, deps, name);
        assert(lock =~= front.push(lock.last()));
        lemma_lookup_push(front, lock.last(), name);
        if declares(deps, lock.last().0) {
            assert(kept =~= kept_pins(front, deps).push(lock.last()));
            lemma_lookup_push(kept_pins(front, deps), lock.last(), name);
        } else {
            assert(kept =~= kept_pins(front, deps));
        }
    } else {
        assert(kept =~= lock);
        names::lemma_position(lock, name);
    }
}

proof fn lemma_lookup_push<V>(m: Seq<(Seq<char>, V)>, e: (Seq<char>, V), key: Seq<char>)
    ensures
        names::lookup(m.push(e), key) == (match names::lookup(m, key) {
            Some(v) => Some(v),
            None => if e.0 == key {
                Some(e.1)
            } else {
                None
            },
        }),
{
    let n = m.push(e);
    names::lemma_position(m, key);
    let p = names::position(m, key);
    assert forall|j: int| 0 <= j < p implies (#[trigger] n[j]).0 != key by {
        assert(m[j].0 != key);
    }
    if p < m.len() || e.0 == key {
        names::lemma_position_is(n, key, p);
    } else {
        names::lemma_position_is(n, key, n.len() as int);
    }
}

/// The pins an update concerns: the one that was asked for, or all of them.
pub open spec fn update_names(lock: Seq<(Seq<char>, LockedDepV)>, wanted: Option<Seq<char>>) -> Seq<
    Seq<char>,
> {
    names::keys(lock).filter(
        |n: Seq<char>|
            match wanted {
                Some(w) => w == n,
                None => true,
            },
    )
}

/// The first of some names that a project has no dependency for, as the fault
/// that reports it.
pub open spec fn update_fault(p: ProjectV, order: Seq<Seq<char>>) -> Option<FaultV>
    decreases order.len(),
{
    if order.len() == 0 {
        None
    } else {
        match update_fault(p, order.drop_last()) {
            Some(f) => Some(f),
            None => if declares(p.dependencies, order.last()) {
                None
            } else {
                Some(
                    diag::plain(
                        "dependency `"@ + order.last() + "` not found in conjure.kdl"@,
                    ),
                )
            },
        }
    }
}

/// The names before the first one that a project has no dependency for.
pub open spec fn updatable(p: ProjectV, order: Seq<Seq<char>>) -> Seq<Seq<char>>
    decreases order.len(),
{
    if order.len() == 0 {
        Seq::empty()
    } else {
        let front = updatable(p, order.drop_last());
        if update_fault(p, order) is None {
            front.push(order.last())
        } else {
            front
        }
    }
}

proof fn lemma_update_stops(p: ProjectV, order: Seq<Seq<char>>, n: int)
    requires
        0 <= n <= order.len(),
        update_fault(p, order.take(n)) is Some,
    ensures
        update_fault(p, order) == update_fault(p, order.take(n)),
        updatable(p, order) == updatable(p, order.take(n)),
    decreases order.len() - n,
{
    if n < order.len() {
        assert(order.take(n + 1).drop_last() =~= order.take(n));
        lemma_update_stops(p, order, n + 1);
    } else {
        assert(order.take(n) =~= order);
    }
}

/// Tell which dependencies `conjure update` refetches, and what stops it, if
/// anything does: nothing that was asked for is locked, or a pin has no dependency
/// any more.
pub fn handle_update(project: &Project, lock: &LockFile, wanted: &Option<String>) -> (out: (
    Vec<String>,
    Option<Fault>,
))
    ensures
        ({
            let order = update_names(lock@, text::opt(*wanted));
            if order.len() == 0 {
                out.0@.len() == 0 && text::opt(out.1) == Some(
                    diag::hinted(
                        "Dependencies are not locked"@,
                        "Try to run `conjure lock` to lock the dependencies"@,
                    ),
                )
            } else {
                text::texts(out.0@) == updatable(project@, order) && text::opt(out.1)
                    == update_fault(project@, order)
            }
        }),
{
    let pins = lock.entries();
    let ghost all = names::keys(lock@);
    let ghost wv = text::opt(*wanted);
    let ghost pred = |n: Seq<char>|
        match wv {
            Some(w) => w == n,
            None => true,
        };
    let mut asked = text::none();
    let mut i: usize = 0;
    proof {
        reveal(Seq::filter);
        assert(all.take(0) =~= Seq::empty());
    }
    while i < pins.len()
        invariant
            i <= pins@.len(),
            pins@ == lock@,
            all == names::keys(lock@),
            wv == text::opt(*wanted),
            pred == (|n: Seq<char>|
                match wv {
                    Some(w) => w == n,
                    None => true,
                }),
            text::texts(asked@) == all.take(i as int).filter(pred),
        decreases pins@.len() - i,
    {
        proof {
            reveal(Seq::filter);
            assert(all.take(i + 1).drop_last() =~= all.take(i as int));
            assert(all.take(i + 1).last() == pins@[i as int].0);
        }
        let want = match wanted {
            Some(w) => text::same(w.as_str(), pins.name_at(i)),
            None => true,
        };
        if want {
            text::push_text(&mut asked, pins.name_at(i));
        }
        i += 1;
    }
    let ghost order = update_names(lock@, wv);
    proof {
        assert(all.take(i as int) =~= all);
        assert(text::texts(asked@) == order);
    }
    let mut out = text::none();
    if asked.len() == 0 {
        let fault = Fault::hinted(
            "Dependencies are not locked".to_owned(),
            "Try to run `conjure lock` to lock the dependencies",
        );
        return (out, Some(fault));
    }
    let mut j: usize = 0;
    proof {
        assert(order.take(0) =~= Seq::empty());
    }
    while j < asked.len()
        invariant
            j <= asked@.len(),
            asked@.len() > 0,
            wv == text::opt(*wanted),
            order == update_names(lock@, wv),
            order == text::texts(asked@),
            update_fault(project@, order.take(j as int)) is None,
            text::texts(out@) == updatable(project@, order.take(j as int)),
        decreases asked@.len() - j,
    {
        let name = asked[j].as_str();
        proof {
            assert(order.take(j + 1).drop_last() =~= order.take(j as int));
            assert(order.take(j + 1).last() == name@);
        }
        let known = match &project.dependencies {
            Some(d) => d.contains_key(name),
            None => false,
        };
        if !known {
            let fault = Fault::plain(
                text::cat3("dependency `", name, "` not found in conjure.kdl"),
            );
            proof {
                lemma_update_stops(project@, order, j + 1);
            }
            return (out, Some(fault));
        }
        text::push_text(&mut out, name);
        j += 1;
    }
    proof {
        assert(order.take(j as int) =~= order);
    }
    (out, None)
}

/// Pin a dependency at what its clone was resolved to.
pub fn lock_remote(
    lock: &mut LockFile,
    name: &str,
    dep: &Dependency,
    git_ref: Option<String>,
    commit: String,
)
    requires
        dep@.remote is Some,
    ensures
        final(lock)@ == names::put(
            old(lock)@,
            name@,
            LockedDepV {
                remote: dep@.remote,
                transport: dep@.transport,
                git_ref: text::opt(git_ref),
                commit: commit@,
            },
        ),
{
    lock.lock(name, proj_parse::copy_remote(&dep.remote), dep.transport, git_ref, commit);
}

// ---------------------------------------------------------------------------
// Profiles
// ---------------------------------------------------------------------------

/// Whether a project declares any profiles (the `as` subcommand is hidden where it
/// would be useless).
pub fn has_profiles(project: &Project) -> (res: bool)
    ensures
        res == (project@.profiles matches Some(m) && m.len() > 0),
{
    match &project.profiles {
        Some(m) => !m.is_empty(),
        None => false,
    }
}

/// Why a profile cannot be used.
pub open spec fn profile_fault(p: ProjectV, profile: Option<Seq<char>>) -> Option<FaultV> {
    match profile {
        Some(n) => if proj_parse::profile_of(p, n) is Some {
            None
        } else {
            Some(diag::plain("profile `"@ + n + "` not found"@))
        },
        None => None,
    }
}

/// The profile a command runs under: the one it was given, or the one of the
/// environment. It has to be one of the project's.
pub fn chosen_profile(project: &Project, given: &Option<String>, inherited: &Option<String>) -> (out:
    Result<Option<String>, Fault>)
    ensures
        match out {
            Ok(p) => text::opt(p) == text::either(text::opt(*given), text::opt(*inherited))
                && profile_fault(project@, text::opt(p)) is None,
            Err(e) => profile_fault(
                project@,
                text::either(text::opt(*given), text::opt(*inherited)),
            ) == Some(e@),
        },
{
    let profile = text::either_text(given, inherited);
    match &profile {
        Some(name) => match project.profile(name.as_str()) {
            Some(_) => {},
            None => return Err(
                Fault::plain(text::cat3("profile `", name.as_str(), "` not found")),
            ),
        },
        None => {},
    }
    Ok(profile)
}

/// Why a subcommand cannot be run under a profile.
pub open spec fn as_fault(p: ProjectV, profile: Seq<char>) -> Option<FaultV> {
    if !(p.profiles matches Some(m) && m.len() > 0) {
        Some(diag::plain("no profiles in conjure.kdl"@))
    } else {
        profile_fault(p, Some(profile))
    }
}

/// Whether a subcommand may be run under a profile: the profile must exist.
pub fn handle_as(project: &Project, profile: &str) -> (out: Result<(), Fault>)
    ensures
        match out {
            Ok(()) => as_fault(project@, profile@) is None,
            Err(e) => as_fault(project@, profile@) == Some(e@),
        },
{
    if !has_profiles(project) {
        return Err(Fault::plain("no profiles in conjure.kdl".to_owned()));
    }
    match project.profile(profile) {
        Some(_) => Ok(()),
        None => Err(Fault::plain(text::cat3("profile `", profile, "` not found"))),
    }
}

// ---------------------------------------------------------------------------
// What must hold of the subcommands
// ---------------------------------------------------------------------------

/// A new project is what was asked for, with defaults for the rest: a dynamically
/// linked C binary, in C11 or C++17, with a profile to debug and one to release.
pub proof fn law_new_projects(name: Seq<char>, w: WishesV)
    ensures
        ({
            let p = new_project(name, w);
            let cpp = w.language == Some(Language::Cpp);
            &&& p.name == name
            &&& p.language == proj_parse::Language::Cpp <==> cpp
            &&& p.ty == ProjectType::Library <==> w.ty == Some(TypeType::Library)
            &&& p.link == Linkage::Static <==> w.link == Some(LinkType::Static)
            &&& p.compile matches Some(c) && {
                &&& w.standard is Some ==> c.standard == w.standard
                &&& w.standard is None && cpp ==> c.standard == Some("c++17"@)
                &&& w.standard is None && !cpp ==> c.standard == Some("c11"@)
                &&& w.arch is None ==> c.arch is None
                &&& w.arch == Some(ArchType::Native) ==> c.arch == Some(Arch::Native)
                &&& w.arch == Some(ArchType::X86) ==> c.arch == Some(Arch::X86)
                &&& w.arch == Some(ArchType::X64) ==> c.arch == Some(Arch::X86_64)
                &&& w.arch == Some(ArchType::Arm64) ==> c.arch == Some(Arch::Arm64)
                &&& c.cc is None && c.linker is None && c.threads is None
                &&& c.includes is None && c.src is None && c.c_flags is None && c.ld_flags is None
            }
            &&& p.profiles matches Some(m) && m.len() == 2 && {
                &&& m[0].0 == "debug"@ && m[1].0 == "release"@
                &&& m[0].1.c_flags == Some(FlagsV::Append(seq!["-g"@, "-O0"@]))
                &&& m[0].1.ld_flags == Some(FlagsV::Append(seq!["-g"@, "-O0"@]))
                &&& m[1].1.c_flags == Some(FlagsV::Append(seq!["-O2"@]))
                &&& m[1].1.ld_flags == Some(FlagsV::Append(seq!["-O2"@, "-flto"@]))
            }
            &&& p.dependencies matches Some(d) && d.len() == 0
            &&& p.tests matches Some(t) && t.len() == 0
            &&& p.siblings matches Some(s) && s.len() == 0
        }),
{
}

/// A project that is there already is never overwritten unless that is asked for, and
/// nothing else is refused.
pub proof fn law_projects_are_not_overwritten(name: Seq<char>, there: bool, force: bool)
    ensures
        taken(name, there, force) is Some <==> there && !force,
{
}

/// The name of a project made in place is the one it was given, else that of the
/// directory.
pub proof fn law_name_of_a_project_made_in_place(
    given: Option<Seq<char>>,
    dir_name: Option<Seq<char>>,
)
    ensures
        given matches Some(g) ==> init_name(given, dir_name) == g,
        given is None ==> (dir_name matches Some(d) ==> init_name(given, dir_name) == d),
        given is None && dir_name is None ==> init_name(given, dir_name).len() == 0,
{
}

/// The summary of a new project shows its name and every value it was created with,
/// in order.
pub proof fn law_summaries_show_what_was_created(name: Seq<char>, w: WishesV)
    ensures
        ({
            let p = new_project(name, w);
            let shown = |colour: Seq<char>, s: Seq<char>|
                colour + ("\x1b[1m"@ + s + "\x1b[0m"@) + "\x1b[39m"@;
            let language = if p.language == proj_parse::Language::Cpp {
                "C++"@
            } else {
                "C"@
            };
            let ty = if p.ty == ProjectType::Library {
                "library"@
            } else {
                "binary"@
            };
            let link = if p.link == Linkage::Static {
                "static"@
            } else {
                "dynamic"@
            };
            let arch = match p.compile->0.arch {
                Some(Arch::X86) => "x86"@,
                Some(Arch::X86_64) => "x64"@,
                Some(Arch::Arm64) => "arm64"@,
                _ => "native"@,
            };
            summary(name, w) == "Created project "@ + shown("\x1b[32m"@, name) + " with language "@
                + shown("\x1b[34m"@, language) + ", standard "@ + shown(
                "\x1b[33m"@,
                p.compile->0.standard->0,
            ) + ", type "@ + shown("\x1b[35m"@, ty) + ", link "@ + shown("\x1b[35m"@, link)
                + ", and arch "@ + shown("\x1b[36m"@, arch)
        }),
{
}

proof fn lemma_first_marked(
    marks: Seq<(Seq<char>, BuildSystem)>,
    files: Seq<Seq<char>>,
    k: int,
)
    requires
        0 <= k <= marks.len(),
        forall|i: int| 0 <= i < k ==> !files.contains((#[trigger] marks[i]).0),
    ensures
        k < marks.len() && files.contains(marks[k].0) ==> first_marked(marks, files) == Some(
            marks[k].1,
        ),
        k == marks.len() ==> first_marked(marks, files) is None,
    decreases marks.len(),
{
    if marks.len() > 0 && k > 0 {
        let rest = marks.skip(1);
        assert(!files.contains(marks[0].0));
        assert forall|i: int| 0 <= i < k - 1 implies !files.contains((#[trigger] rest[i]).0) by {
            assert(!files.contains(marks[i + 1].0));
        }
        lemma_first_marked(rest, files, k - 1);
        assert(k < marks.len() ==> rest[k - 1] == marks[k]);
    }
}

/// A build system is guessed from the files it leaves in a tree; where several have,
/// what generates the files of another wins.
pub proof fn law_build_systems_are_guessed(files: Seq<Seq<char>>)
    ensures
        ({
            let has = |f: Seq<char>| files.contains(f);
            let guess = first_marked(markers(), files);
            let cmake = has("CMakeLists.txt"@);
            let meson = has("meson.build"@);
            let autotools = has("configure.ac"@) || has("configure"@);
            let make = has("GNUmakefile"@) || has("makefile"@);
            let just = has("justfile"@) || has("Justfile"@);
            let plain = has("Makefile"@);
            let xmake = has("xmake.lua"@);
            let ninja = has("build.ninja"@);
            guess == if cmake {
                Some(BuildSystem::Cmake)
            } else if meson {
                Some(BuildSystem::Meson)
            } else if autotools {
                Some(BuildSystem::Autotools)
            } else if make {
                Some(BuildSystem::Make)
            } else if just {
                Some(BuildSystem::Just)
            } else if plain {
                Some(BuildSystem::Make)
            } else if xmake {
                Some(BuildSystem::Xmake)
            } else if ninja {
                Some(BuildSystem::Ninja)
            } else {
                None
            }
        }),
{
    let m = markers();
    let k: int = if files.contains(m[0].0) {
        0
    } else if files.contains(m[1].0) {
        1
    } else if files.contains(m[2].0) {
        2
    } else if files.contains(m[3].0) {
        3
    } else if files.contains(m[4].0) {
        4
    } else if files.contains(m[5].0) {
        5
    } else if files.contains(m[6].0) {
        6
    } else if files.contains(m[7].0) {
        7
    } else if files.contains(m[8].0) {
        8
    } else if files.contains(m[9].0) {
        9
    } else if files.contains(m[10].0) {
        10
    } else {
        11
    };
    lemma_first_marked(m, files, k);
}

/// What is added is named by the last part of its path or address, cloned from where
/// its host keeps it - over ssh unless asked otherwise - and recorded with where it
/// came from, the commit it is at, and the branch that led there, or else the
/// reference that was asked for.
pub proof fn law_what_is_added(
    a: AddArgsV,
    dir: Seq<char>,
    name: Seq<char>,
    head_ref: Option<Seq<char>>,
    commit: Seq<char>,
    guess: Option<BuildSystem>,
)
    requires
        forall|i: int| 0 <= i < name.len() ==> #[trigger] name[i] != '/',
        a.path_or_url == name || a.path_or_url == dir + seq!['/'] + name,
    ensures
        ({
            let local = a.local_or_remote == LocalOrRemote::Local;
            let transport = if a.transport == Some(Transport::Https) {
                "https"@
            } else {
                "ssh"@
            };
            let e = added_entry(a, head_ref, commit);
            &&& added_name(a) == name
            &&& local ==> added_url(a) is None && e.remote is None && added_build(a, guess) is None
            &&& a.local_or_remote == LocalOrRemote::Codeberg ==> added_url(a) == Some(
                git::url("codeberg"@, a.path_or_url, transport),
            ) && e.remote == Some(RemoteV::Codeberg(a.path_or_url))
            &&& a.local_or_remote == LocalOrRemote::Github ==> added_url(a) == Some(
                git::url("github"@, a.path_or_url, transport),
            ) && e.remote == Some(RemoteV::GitHub(a.path_or_url))
            &&& a.local_or_remote == LocalOrRemote::Bitbucket ==> added_url(a) == Some(
                git::url("bitbucket"@, a.path_or_url, transport),
            ) && e.remote == Some(RemoteV::BitBucket(a.path_or_url))
            &&& a.local_or_remote == LocalOrRemote::Git ==> added_url(a) == Some(
                git::url("git"@, a.path_or_url, transport),
            ) && e.remote == Some(RemoteV::Git(a.path_or_url))
            &&& e.commit == commit
            &&& e.git_ref == (if head_ref is Some {
                head_ref
            } else {
                a.git_ref
            })
            &&& a.transport == Some(Transport::Https) <==> e.transport == Some(
                proj_parse::Transport::Https,
            )
            &&& e.transport is Some
            &&& !local && a.build is Some ==> added_build(a, guess) == Some(
                system_name(a.build->0),
            )
            &&& !local && a.build is None && guess is Some ==> added_build(a, guess) == Some(
                system_name(guess->0),
            )
            &&& !local && a.build is None && guess is None ==> added_build(a, guess) is None
        }),
{
    text::law_last_part(dir, '/', name, text::Cut::At('/'));
}

/// The words of `conjure add` are those of a manifest: what it writes for a build
/// system, a transport or a host is read back as what was meant.
pub proof fn law_added_words_are_those_of_a_manifest(
    t: Transport,
    h: LocalOrRemote,
    path: Seq<char>,
)
    ensures
        proj_parse::build_system_of(seq![system_name(BuildSystem::Make)])
            == proj_parse::BuildSystemV::Make(None),
        proj_parse::build_system_of(seq![system_name(BuildSystem::Cmake)])
            == proj_parse::BuildSystemV::CMake(None),
        proj_parse::build_system_of(seq![system_name(BuildSystem::Autotools)])
            == proj_parse::BuildSystemV::Autotools(None),
        proj_parse::build_system_of(seq![system_name(BuildSystem::Meson)])
            == proj_parse::BuildSystemV::Meson(None),
        proj_parse::build_system_of(seq![system_name(BuildSystem::Ninja)])
            == proj_parse::BuildSystemV::Ninja(None),
        proj_parse::build_system_of(seq![system_name(BuildSystem::Xmake)])
            == proj_parse::BuildSystemV::Xmake(None),
        proj_parse::build_system_of(seq![system_name(BuildSystem::Just)])
            is Just,
        proj_parse::transport_of(transport_name(t)) == Some(
            match t {
                Transport::Ssh => proj_parse::Transport::Ssh,
                Transport::Https => proj_parse::Transport::Https,
            },
        ),
        h == LocalOrRemote::Codeberg ==> proj_parse::remote_of(host_name(h), path) == Some(
            RemoteV::Codeberg(path),
        ),
        h == LocalOrRemote::Github ==> proj_parse::remote_of(host_name(h), path) == Some(
            RemoteV::GitHub(path),
        ),
        h == LocalOrRemote::Bitbucket ==> proj_parse::remote_of(host_name(h), path) == Some(
            RemoteV::BitBucket(path),
        ),
        h == LocalOrRemote::Git ==> proj_parse::remote_of(host_name(h), path) == Some(
            RemoteV::Git(path),
        ),
{
    reveal_strlit("make");
    reveal_strlit("cmake");
    reveal_strlit("autotools");
    reveal_strlit("meson");
    reveal_strlit("ninja");
    reveal_strlit("xmake");
    reveal_strlit("just");
    reveal_strlit("ssh");
    reveal_strlit("https");
    reveal_strlit("codeberg");
    reveal_strlit("github");
    reveal_strlit("bitbucket");
    reveal_strlit("git");
    assert(text::lower("make"@) =~= "make"@);
    assert(text::lower("cmake"@) =~= "cmake"@);
    assert(text::lower("autotools"@) =~= "autotools"@);
    assert(text::lower("meson"@) =~= "meson"@);
    assert(text::lower("ninja"@) =~= "ninja"@);
    assert(text::lower("xmake"@) =~= "xmake"@);
    assert(text::lower("just"@) =~= "just"@);
    assert(text::lower("ssh"@) =~= "ssh"@);
    assert(text::lower("https"@) =~= "https"@);
    assert(text::lower("codeberg"@) =~= "codeberg"@);
    assert(text::lower("github"@) =~= "github"@);
    assert(text::lower("bitbucket"@) =~= "bitbucket"@);
    assert(text::lower("git"@) =~= "git"@);
    proj_parse::law_build_systems_of_a_manifest(seq!["make"@]);
    proj_parse::law_build_systems_of_a_manifest(seq!["cmake"@]);
    proj_parse::law_build_systems_of_a_manifest(seq!["autotools"@]);
    proj_parse::law_build_systems_of_a_manifest(seq!["meson"@]);
    proj_parse::law_build_systems_of_a_manifest(seq!["ninja"@]);
    proj_parse::law_build_systems_of_a_manifest(seq!["xmake"@]);
    proj_parse::law_build_systems_of_a_manifest(seq!["just"@]);
    proj_parse::law_words_of_a_manifest(transport_name(t));
    proj_parse::law_hosts_of_a_manifest(host_name(h), path);
}

/// The node of an added dependency, line by line: where it comes from; the reference,
/// where one is asked for; and for a remote one its transport and, where it is known,
/// its build system.
pub proof fn law_node_of_an_added_dependency(a: AddArgsV, guess: Option<BuildSystem>)
    ensures
        ({
            let none = Seq::<char>::empty();
            let local = a.local_or_remote == LocalOrRemote::Local;
            let host = match a.local_or_remote {
                LocalOrRemote::Local => none,
                LocalOrRemote::Codeberg => "codeberg"@,
                LocalOrRemote::Github => "github"@,
                LocalOrRemote::Bitbucket => "bitbucket"@,
                LocalOrRemote::Git => "git"@,
            };
            let transport = if a.transport == Some(Transport::Https) {
                "\n  transport https"@
            } else {
                "\n  transport ssh"@
            };
            let from = if local {
                "\n  local \""@ + a.path_or_url + "\""@
            } else {
                "\n  remote "@ + host + " \""@ + a.path_or_url + "\""@
            };
            let at = if a.git_ref is Some {
                "\n  ref "@ + a.git_ref->0
            } else {
                none
            };
            let system = if a.build is Some {
                a.build
            } else {
                guess
            };
            let rest = if local {
                none
            } else {
                transport + (if system is Some {
                    "\n  build "@ + system_name(system->0)
                } else {
                    none
                })
            };
            fragment(a, guess) == added_name(a) + " {"@ + from + at + rest + "\n}"@
        }),
{
    reveal_strlit("\n  transport https");
    reveal_strlit("\n  transport ssh");
    reveal_strlit("\n  transport ");
    reveal_strlit("https");
    reveal_strlit("ssh");
    assert("\n  transport "@ + "https"@ =~= "\n  transport https"@);
    assert("\n  transport "@ + "ssh"@ =~= "\n  transport ssh"@);
    let none = Seq::<char>::empty();
    let local = a.local_or_remote == LocalOrRemote::Local;
    let from = if local {
        "\n  local \""@ + a.path_or_url + "\""@
    } else {
        "\n  remote "@ + host_name(a.local_or_remote) + " \""@ + a.path_or_url + "\""@
    };
    let at = if a.git_ref is Some {
        "\n  ref "@ + a.git_ref->0
    } else {
        none
    };
    let x = added_name(a) + " {"@ + from + at;
    if local {
        assert(x + none + none =~= x + none);
    } else {
        let t = "\n  transport "@ + transport_name(added_transport(a));
        let b = match added_build(a, guess) {
            Some(s) => "\n  build "@ + s,
            None => none,
        };
        assert(x + t + b =~= x + (t + b));
    }
}

/// Adding a dependency puts its node behind the others, takes out only one of the
/// same name, and touches nothing else in the manifest.
pub proof fn law_adding_touches_nothing_else(ts: Seq<Tree>, name: Seq<char>, node: Tree, k: int)
    requires
        document::has_node(ts, "project"@),
    ensures
        ({
            let i = document::find_node(ts, "project"@);
            let after = added(ts, name, node);
            let deps = dependencies_of(document::kids(ts[i]));
            let now = dependencies_of(document::kids(after[i]));
            &&& after.len() == ts.len()
            &&& 0 <= k < ts.len() && k != i ==> after[k] == ts[k]
            &&& after[i].name == ts[i].name && after[i].lead == ts[i].lead && after[i].entries
                == ts[i].entries
            &&& now.len() > 0 && now.last() == node
            &&& now.drop_last() == deps.filter(|t: Tree| t.name != name)
            &&& forall|j: int|
                0 <= j < document::kids(ts[i]).len() && (#[trigger] document::kids(ts[i])[j]).name
                    != "dependencies"@ ==> document::kids(after[i])[j] == document::kids(ts[i])[j]
        }),
{
    let i = document::find_node(ts, "project"@);
    document::lemma_find_node(ts, "project"@);
    let kids = document::kids(project_of(ts));
    let rest = document::other_nodes(dependencies_of(kids), name);
    let new_deps = rest.push(node);
    lemma_with_project(ts, with_dependencies(kids, new_deps));
    lemma_with_dependencies(kids, new_deps);
    assert(new_deps.drop_last() =~= rest);
    let all = with_dependencies_node(kids);
    document::lemma_find_node(all, "dependencies"@);
    document::lemma_find_node(kids, "dependencies"@);
    let j = document::find_node(all, "dependencies"@);
    if !document::has_node(kids, "dependencies"@) {
        document::lemma_find_node_is(all, "dependencies"@, kids.len() as int);
    }
    assert forall|m: int|
        0 <= m < kids.len() && (#[trigger] kids[m]).name != "dependencies"@ implies with_dependencies(
        kids,
        new_deps,
    )[m] == kids[m] by {
        assert(all[m] == kids[m]);
        assert(m != j);
    }
}

/// Removing a dependency takes out its node and leaves every other as it was.
pub proof fn law_removing_touches_nothing_else(ts: Seq<Tree>, name: Seq<char>, k: int)
    requires
        remove_fault(ts, name) is None,
    ensures
        ({
            let i = document::find_node(ts, "project"@);
            let after = removed(ts, name);
            let deps = dependencies_of(document::kids(ts[i]));
            let now = dependencies_of(document::kids(after[i]));
            &&& after.len() == ts.len()
            &&& 0 <= k < ts.len() && k != i ==> after[k] == ts[k]
            &&& after[i].name == ts[i].name && after[i].lead == ts[i].lead && after[i].entries
                == ts[i].entries
            &&& now == deps.filter(|t: Tree| t.name != name)
        }),
{
    let i = document::find_node(ts, "project"@);
    document::lemma_find_node(ts, "project"@);
    let kids = document::kids(project_of(ts));
    let rest = document::other_nodes(dependencies_of(kids), name);
    if rest.len() == 0 {
        let left = document::other_nodes(kids, "dependencies"@);
        lemma_with_project(ts, left);
        document::lemma_other_nodes(kids, "dependencies"@);
        lemma_no_dependencies(left);
        assert(rest =~= Seq::empty());
    } else {
        lemma_with_project(ts, with_dependencies(kids, rest));
        lemma_with_dependencies(kids, rest);
    }
}

/// What stops an addition: no project, or the same dependency without force.
pub proof fn law_when_an_addition_is_refused(ts: Seq<Tree>, name: Seq<char>, force: bool)
    ensures
        add_fault(ts, name, force) is None <==> document::has_node(ts, "project"@) && (force
            || !has_dependency(ts, name)),
{
}

/// What stops a removal: anything on the way to the dependency that is not there.
pub proof fn law_when_a_removal_is_refused(ts: Seq<Tree>, name: Seq<char>)
    ensures
        remove_fault(ts, name) is None ==> has_dependency(ts, name),
        document::has_node(ts, "project"@) && has_dependency(ts, name) && document::has_node(
            document::kids(project_of(ts)),
            "dependencies"@,
        ) ==> remove_fault(ts, name) is None,
{
    let kids = document::kids(project_of(ts));
    document::lemma_find_node(ts, "project"@);
    document::lemma_find_node(kids, "dependencies"@);
    document::lemma_find_node(dependencies_of(kids), name);
    document::lemma_find_node(Seq::<Tree>::empty(), name);
}

/// `conjure lock` goes through the remote dependencies, each and only those.
pub proof fn law_what_is_locked(deps: Seq<(Seq<char>, DependencyV)>, name: Seq<char>)
    ensures
        remote_names(deps).contains(name) <==> exists|i: int|
            0 <= i < deps.len() && (#[trigger] deps[i]).0 == name && deps[i].1.remote is Some,
{
    let pred = |e: (Seq<char>, DependencyV)| e.1.remote is Some;
    let v = deps.filter(pred);
    let k = names::keys(v);
    if k.contains(name) {
        let i = choose|i: int| 0 <= i < k.len() && k[i] == name;
        deps.lemma_filter_pred(pred, i);
        assert(v.contains(v[i]));
        deps.lemma_filter_contains_rev(pred, v[i]);
        let j = choose|j: int| 0 <= j < deps.len() && deps[j] == v[i];
        assert(deps[j].0 == name);
    }
    if exists|i: int|
        0 <= i < deps.len() && (#[trigger] deps[i]).0 == name && deps[i].1.remote is Some {
        let i = choose|i: int|
            0 <= i < deps.len() && (#[trigger] deps[i]).0 == name && deps[i].1.remote is Some;
        deps.lemma_filter_contains(pred, i);
        let j = choose|j: int| 0 <= j < v.len() && v[j] == deps[i];
        assert(k[j] == name);
    }
}

/// `conjure update` goes through what is locked: all of it, or the one that is named.
pub proof fn law_what_is_updated(
    lock: Seq<(Seq<char>, LockedDepV)>,
    wanted: Option<Seq<char>>,
    name: Seq<char>,
)
    ensures
        update_names(lock, wanted).contains(name) <==> names::holds(lock, name) && (wanted is None
            || wanted == Some(name)),
        wanted is None ==> update_names(lock, wanted) == Seq::new(lock.len(), |i: int| lock[i].0),
{
    let keys = names::keys(lock);
    let pred = |n: Seq<char>|
        match wanted {
            Some(w) => w == n,
            None => true,
        };
    let v = keys.filter(pred);
    names::lemma_holds(lock, name);
    if v.contains(name) {
        let i = choose|i: int| 0 <= i < v.len() && v[i] == name;
        keys.lemma_filter_pred(pred, i);
        keys.lemma_filter_contains_rev(pred, name);
    }
    if keys.contains(name) && pred(name) {
        let i = choose|i: int| 0 <= i < keys.len() && keys[i] == name;
        keys.lemma_filter_contains(pred, i);
    }
    if wanted is None {
        lemma_keep_all(keys, pred);
        assert(keys =~= Seq::new(lock.len(), |i: int| lock[i].0));
    }
}

proof fn lemma_keep_all(v: Seq<Seq<char>>, pred: spec_fn(Seq<char>) -> bool)
    requires
        forall|x: Seq<char>| #[trigger] pred(x),
    ensures
        v.filter(pred) == v,
    decreases v.len(),
{
    reveal(Seq::filter);
    if v.len() > 0 {
        lemma_keep_all(v.drop_last(), pred);
        assert(pred(v.last()));
        assert(v.drop_last().push(v.last()) =~= v);
    } else {
        assert(v.filter(pred) =~= v);
    }
}

/// An update stops at the first pin that the manifest does not declare, and goes
/// through everything before it.
pub proof fn law_updates_stop_at_unknown_pins(p: ProjectV, order: Seq<Seq<char>>, k: int)
    requires
        0 <= k <= order.len(),
        forall|i: int|
            0 <= i < k ==> p.dependencies is Some && names::holds(
                p.dependencies->0,
                #[trigger] order[i],
            ),
        k < order.len() ==> !(p.dependencies is Some && names::holds(p.dependencies->0, order[k])),
    ensures
        update_fault(p, order) is None <==> k == order.len(),
        updatable(p, order) == order.take(k),
    decreases order.len(),
{
    if order.len() > 0 {
        let front = order.drop_last();
        let n = order.len() - 1;
        let m = if k < n {
            k
        } else {
            n
        };
        assert forall|i: int| 0 <= i < m implies p.dependencies is Some && names::holds(
            p.dependencies->0,
            #[trigger] front[i],
        ) by {
            assert(front[i] == order[i]);
            assert(i < k);
        }
        if k < n {
            assert(front[k] == order[k]);
        }
        if m > 0 {
            assert(names::holds(p.dependencies->0, order[0]));
            assert(p.dependencies is Some);
        }
        law_updates_stop_at_unknown_pins(p, front, m);
        if k == order.len() {
            assert(names::holds(p.dependencies->0, order[n]));
            assert(front.take(n) =~= front);
            assert(front.push(order.last()) =~= order.take(k));
        } else {
            assert(front.take(m) =~= order.take(k));
        }
    } else {
        assert(updatable(p, order) =~= order.take(k));
    }
}

/// A profile can be used exactly where the project defines it, and a subcommand runs
/// under one only then.
pub proof fn law_which_profiles_can_be_used(p: ProjectV, name: Seq<char>)
    ensures
        ({
            let defined = p.profiles is Some && names::holds(p.profiles->0, name);
            &&& profile_fault(p, None) is None
            &&& profile_fault(p, Some(name)) is None <==> defined
            &&& as_fault(p, name) is None <==> defined
        }),
{
    if p.profiles is Some {
        names::lemma_position(p.profiles->0, name);
    }
}

/// A dependency is added exactly where the manifest can be read, has a project, does
/// not have the dependency already unless that is forced, and the addition itself can
/// be read; the first of these that fails is what is reported.
pub proof fn law_when_an_edit_is_refused(
    manifest: Seq<char>,
    a: AddArgsV,
    guess: Option<BuildSystem>,
)
    ensures
        edit_fault(manifest, a, guess) is None <==> document::parsed(manifest) is Ok
            && document::has_node(document::parsed(manifest)->Ok_0, "project"@) && (a.force
            || !has_dependency(document::parsed(manifest)->Ok_0, added_name(a)))
            && document::parsed_node(fragment(a, guess)) is Ok,
        document::parsed(manifest) matches Err(m) ==> edit_fault(manifest, a, guess) is Some && edit_fault(manifest, a, guess)->0.message == m,
        document::parsed(manifest) is Ok && !document::has_node(
            document::parsed(manifest)->Ok_0,
            "project"@,
        ) ==> edit_fault(manifest, a, guess) is Some && edit_fault(manifest, a, guess)->0.message
            == "No project node in conjure.kdl"@,
        document::parsed(manifest) is Ok && !a.force && has_dependency(
            document::parsed(manifest)->Ok_0,
            added_name(a),
        ) ==> edit_fault(manifest, a, guess) is Some && edit_fault(manifest, a, guess)->0.message == "Dependency `"@
            + added_name(a) + "` already exists"@,
{
}

/// What is refused before a build system is looked for is refused by the edit too, in
/// the same words; with force nothing is refused beforehand.
pub proof fn law_early_refusals_agree_with_the_edit(
    manifest: Seq<char>,
    a: AddArgsV,
    guess: Option<BuildSystem>,
)
    ensures
        refused(manifest, a) is Some ==> edit_fault(manifest, a, guess) is Some && edit_fault(manifest, a, guess)->0.message
            == refused(manifest, a)->0.message,
        a.force ==> refused(manifest, a) is None,
        refused(manifest, a) is None && !a.force ==> document::parsed(manifest) is Ok
            && !has_dependency(document::parsed(manifest)->Ok_0, added_name(a)),
{
}

/// A saved manifest is the formatted document with the quotes it had before: without
/// quotes before, it is the formatted document as it is; with quotes or without, its
/// ink is the document's; and a line is saved with the quotes that the manifest had.
pub proof fn law_saved_manifests(before: Seq<char>, doc: KdlDocument)
    ensures
        !before.contains('"') ==> saved(before, doc) == crate::proj_write::fixed(
            document::rendered(doc, "  "@),
        ),
        quotes::plain_ink(saved(before, doc)) == quotes::plain_ink(
            crate::proj_write::fixed(document::rendered(doc, "  "@)),
        ),
        quotes::quoted_words(before).len() > 0 ==> saved(before, doc) == text::ended_lines(
            text::lines(crate::proj_write::fixed(document::rendered(doc, "  "@))).map_values(
                |l: Seq<char>| quotes::line_restored(l, quotes::quoted_words(before)),
            ),
        ),
{
    let out = crate::proj_write::fixed(document::rendered(doc, "  "@));
    if !before.contains('"') {
        quotes::law_nothing_to_restore(before, out);
    }
    quotes::law_restore_keeps_ink(before, out);
    quotes::law_quotes_are_restored_line_by_line(before, out);
}

/// A new project goes into a directory of its own, here, called like the project: the
/// project's own name leads to the same directory.
pub proof fn law_where_new_projects_go(name: Seq<char>)
    ensures
        new_dir(name) == paths::joined("."@, proj_parse::slug(proj_parse::lowered(name))),
        proj_parse::all_ascii(name) ==> new_dir(proj_parse::slug(proj_parse::lowered(name)))
            == new_dir(name),
{
    if proj_parse::all_ascii(name) {
        proj_parse::law_slugify_is_idempotent(name);
    }
}

/// What a refusal says: it names what was asked for, and what stood in its way.
pub proof fn law_refusals_name_what_was_asked(p: ProjectV, ts: Seq<Tree>, name: Seq<char>)
    ensures
        taken(name, true, false) == Some(
            FaultV {
                message: "Project `"@ + name + "` already exists"@,
                help: Some("Use --force to overwrite the project"@),
            },
        ),
        profile_fault(p, Some(name)) is Some ==> profile_fault(p, Some(name)) == Some(
            FaultV { message: "profile `"@ + name + "` not found"@, help: None },
        ),
        p.profiles is None || p.profiles->0.len() == 0 ==> as_fault(p, name) == Some(
            FaultV { message: "no profiles in conjure.kdl"@, help: None },
        ),
        p.profiles is Some && p.profiles->0.len() > 0 ==> as_fault(p, name) == profile_fault(
            p,
            Some(name),
        ),
        !document::has_node(ts, "project"@) ==> remove_fault(ts, name) is Some && remove_fault(
            ts,
            name,
        )->0.message == "No project node in conjure.kdl"@,
        document::has_node(ts, "project"@) && project_of(ts).children is None ==> remove_fault(
            ts,
            name,
        ) is Some && remove_fault(ts, name)->0.message
            == "No children in project node, is your project malformed?"@,
        document::has_node(ts, "project"@) && project_of(ts).children is Some
            && !document::has_node(document::kids(project_of(ts)), "dependencies"@) ==> remove_fault(
            ts,
            name,
        ) is Some && remove_fault(ts, name)->0.message
            == "No dependency node in project, nothing to remove"@,
{
}

/// A removal of what is not there names it.
pub proof fn law_removals_name_what_is_missing(ts: Seq<Tree>, kids: Seq<Tree>, name: Seq<char>)
    requires
        document::has_node(ts, "project"@),
        ts[document::find_node(ts, "project"@)].children == Some(kids),
        document::has_node(kids, "dependencies"@),
    ensures
        ({
            let node = kids[document::find_node(kids, "dependencies"@)];
            &&& node.children is None ==> remove_fault(ts, name) is Some && remove_fault(
                ts,
                name,
            )->0.message == "No children in dependencies node, nothing to remove"@
            &&& node.children is Some && !document::has_node(node.children->0, name)
                ==> remove_fault(ts, name) is Some && remove_fault(ts, name)->0.message
                == "Dependency `"@ + name + "` not found"@
            &&& node.children is Some && document::has_node(node.children->0, name)
                ==> remove_fault(ts, name) is None
        }),
{
}

/// An update names the first pin that the manifest does not have.
pub proof fn law_updates_name_unknown_pins(
    p: ProjectV,
    known: Seq<Seq<char>>,
    unknown: Seq<char>,
    rest: Seq<Seq<char>>,
)
    requires
        update_fault(p, known) is None,
        !(p.dependencies is Some && names::holds(p.dependencies->0, unknown)),
    ensures
        update_fault(p, known + seq![unknown] + rest) == Some(
            FaultV {
                message: "dependency `"@ + unknown + "` not found in conjure.kdl"@,
                help: None,
            },
        ),
    decreases rest.len(),
{
    let all = known + seq![unknown] + rest;
    if rest.len() == 0 {
        assert(all.drop_last() =~= known);
        assert(all.last() == unknown);
    } else {
        law_updates_name_unknown_pins(p, known, unknown, rest.drop_last());
        assert(all.drop_last() =~= known + seq![unknown] + rest.drop_last());
    }
}

} // verus!
