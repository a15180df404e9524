//! The `conjure.kdl` schema: its types, the tokens they are written as, the rules
//! a manifest has to meet, and profile resolution.
//!
//! [`Project`] mirrors the manifest. Each type has a mathematical model, its view,
//! and every contract speaks of those.
//!
//! Profiles are not applied when a manifest is read. [`Project::with_profile`]
//! produces the effective project of a build by folding a [`Profile`], and the
//! profiles it extends, over the base, so everything downstream works on a plain
//! [`Project`].
use vstd::prelude::*;
use crate::names;
use crate::names::{Duplicate, NameMap};
use crate::text;

verus! {

/// The language a project is written in.
#[derive(Clone, Copy, Debug, PartialEq, Eq, Structural)]
pub enum Language {
    C,
    Cpp,
}

impl Default for Language {
    fn default() -> (out: Self)
        ensures
            out == Language::C,
    {
        Language::C
    }
}

/// The language a token stands for, in any case.
pub open spec fn language_of(s: Seq<char>) -> Option<Language> {
    let t = text::lower(s);
    if t == "c"@ {
        Some(Language::C)
    } else if t == "c++"@ || t == "cpp"@ {
        Some(Language::Cpp)
    } else {
        None
    }
}

impl Language {
    /// Read a language token.
    pub fn try_from(s: String) -> (out: Result<Self, String>)
        ensures
            match out {
                Ok(l) => language_of(s@) == Some(l),
                Err(e) => language_of(s@) is None && e@ == "unknown language: "@ + text::lower(s@),
            },
    {
        let t = text::to_ascii_lowercase(s.as_str());
        if text::same(t.as_str(), "c") {
            Ok(Language::C)
        } else if text::same(t.as_str(), "c++") || text::same(t.as_str(), "cpp") {
            Ok(Language::Cpp)
        } else {
            Err(text::cat("unknown language: ", t.as_str()))
        }
    }
}

/// What a project produces.
#[derive(Clone, Copy, Debug, PartialEq, Eq, Structural)]
pub enum ProjectType {
    Binary,
    Library,
}

impl Default for ProjectType {
    fn default() -> (out: Self)
        ensures
            out == ProjectType::Binary,
    {
        ProjectType::Binary
    }
}

/// The project type a token stands for, in any case.
pub open spec fn project_type_of(s: Seq<char>) -> Option<ProjectType> {
    let t = text::lower(s);
    if t == "binary"@ {
        Some(ProjectType::Binary)
    } else if t == "library"@ {
        Some(ProjectType::Library)
    } else {
        None
    }
}

impl ProjectType {
    /// Read a project type token.
    pub fn try_from(s: String) -> (out: Result<Self, String>)
        ensures
            match out {
                Ok(t) => project_type_of(s@) == Some(t),
                Err(e) => project_type_of(s@) is None && e@ == "Unknown project type: "@
                    + text::debug_text(text::lower(s@)),
            },
    {
        let t = text::to_ascii_lowercase(s.as_str());
        if text::same(t.as_str(), "binary") {
            Ok(ProjectType::Binary)
        } else if text::same(t.as_str(), "library") {
            Ok(ProjectType::Library)
        } else {
            let shown = text::debug_of(t.as_str());
            Err(text::cat("Unknown project type: ", shown.as_str()))
        }
    }
}

/// Static versus dynamic linkage. Lives apart from [`ProjectType`] because it is
/// a build variant, which a profile may override, not part of what the project
/// is.
#[derive(Clone, Copy, Debug, PartialEq, Eq, Structural)]
pub enum Linkage {
    Dynamic,
    Static,
}

impl Default for Linkage {
    fn default() -> (out: Self)
        ensures
            out == Linkage::Dynamic,
    {
        Linkage::Dynamic
    }
}

/// The linkage a token stands for, in any case.
pub open spec fn linkage_of(s: Seq<char>) -> Option<Linkage> {
    let t = text::lower(s);
    if t == "dynamic"@ {
        Some(Linkage::Dynamic)
    } else if t == "static"@ {
        Some(Linkage::Static)
    } else {
        None
    }
}

impl Linkage {
    /// Read a linkage token.
    pub fn try_from(s: String) -> (out: Result<Self, String>)
        ensures
            match out {
                Ok(l) => linkage_of(s@) == Some(l),
                Err(e) => linkage_of(s@) is None && e@ == "Unknown linkage: "@ + text::debug_text(
                    text::lower(s@),
                ),
            },
    {
        let t = text::to_ascii_lowercase(s.as_str());
        if text::same(t.as_str(), "dynamic") {
            Ok(Linkage::Dynamic)
        } else if text::same(t.as_str(), "static") {
            Ok(Linkage::Static)
        } else {
            let shown = text::debug_of(t.as_str());
            Err(text::cat("Unknown linkage: ", shown.as_str()))
        }
    }

    /// The linkage of a manifest whose `link` field may be absent.
    pub fn or_dynamic(link: Option<Linkage>) -> (out: Linkage)
        ensures
            out == (match link {
                Some(l) => l,
                None => Linkage::Dynamic,
            }),
    {
        match link {
            Some(l) => l,
            None => Linkage::Dynamic,
        }
    }
}

/// The architecture a project is built for.
#[derive(Clone, Copy, Debug, PartialEq, Eq, Structural)]
pub enum Arch {
    Native,
    X86,
    X86_64,
    Arm64,
}

impl Default for Arch {
    fn default() -> (out: Self)
        ensures
            out == Arch::Native,
    {
        Arch::Native
    }
}

/// The architecture a token stands for, in any case.
pub open spec fn arch_of(s: Seq<char>) -> Option<Arch> {
    let t = text::lower(s);
    if t == "native"@ {
        Some(Arch::Native)
    } else if t == "x86"@ || t == "i686"@ || t == "i386"@ || t == "32"@ {
        Some(Arch::X86)
    } else if t == "x64"@ || t == "x86_64"@ || t == "amd64"@ || t == "64"@ {
        Some(Arch::X86_64)
    } else if t == "arm64"@ || t == "aarch64"@ {
        Some(Arch::Arm64)
    } else {
        None
    }
}

impl Arch {
    /// Read an architecture token.
    pub fn try_from(s: String) -> (out: Result<Self, String>)
        ensures
            match out {
                Ok(a) => arch_of(s@) == Some(a),
                Err(e) => arch_of(s@) is None && e@ == "Unknown arch: "@ + text::debug_text(
                    text::lower(s@),
                ),
            },
    {
        let low = text::to_ascii_lowercase(s.as_str());
        let t = low.as_str();
        if text::same(t, "native") {
            Ok(Arch::Native)
        } else if text::same(t, "x86") || text::same(t, "i686") || text::same(t, "i386")
            || text::same(t, "32") {
            Ok(Arch::X86)
        } else if text::same(t, "x64") || text::same(t, "x86_64") || text::same(t, "amd64")
            || text::same(t, "64") {
            Ok(Arch::X86_64)
        } else if text::same(t, "arm64") || text::same(t, "aarch64") {
            Ok(Arch::Arm64)
        } else {
            let shown = text::debug_of(t);
            Err(text::cat("Unknown arch: ", shown.as_str()))
        }
    }
}

/// How a remote dependency is fetched.
#[derive(Clone, Copy, Debug, PartialEq, Eq, Structural)]
pub enum Transport {
    Ssh,
    Https,
}

/// The transport a token stands for, in any case.
pub open spec fn transport_of(s: Seq<char>) -> Option<Transport> {
    let t = text::lower(s);
    if t == "ssh"@ {
        Some(Transport::Ssh)
    } else if t == "https"@ {
        Some(Transport::Https)
    } else {
        None
    }
}

impl Transport {
    /// Read a transport token.
    pub fn try_from(s: String) -> (out: Result<Self, String>)
        ensures
            match out {
                Ok(t) => transport_of(s@) == Some(t),
                Err(e) => transport_of(s@) is None && e@ == "unknown transport: "@ + text::lower(
                    s@,
                ),
            },
    {
        let t = text::to_ascii_lowercase(s.as_str());
        if text::same(t.as_str(), "ssh") {
            Ok(Transport::Ssh)
        } else if text::same(t.as_str(), "https") {
            Ok(Transport::Https)
        } else {
            Err(text::cat("unknown transport: ", t.as_str()))
        }
    }
}

/// Where a remote dependency is hosted, with its path there.
#[derive(Debug, PartialEq, Eq)]
pub enum Remote {
    Codeberg(String),
    GitHub(String),
    BitBucket(String),
    Git(String),
}

/// The model of a [`Remote`].
pub enum RemoteV {
    Codeberg(Seq<char>),
    GitHub(Seq<char>),
    BitBucket(Seq<char>),
    Git(Seq<char>),
}

impl View for Remote {
    type V = RemoteV;

    open spec fn view(&self) -> RemoteV {
        match *self {
            Remote::Codeberg(p) => RemoteV::Codeberg(p@),
            Remote::GitHub(p) => RemoteV::GitHub(p@),
            Remote::BitBucket(p) => RemoteV::BitBucket(p@),
            Remote::Git(p) => RemoteV::Git(p@),
        }
    }
}

impl Clone for Remote {
    fn clone(&self) -> (out: Self)
        ensures
            out@ == self@,
    {
        match self {
            Remote::Codeberg(p) => Remote::Codeberg(p.clone()),
            Remote::GitHub(p) => Remote::GitHub(p.clone()),
            Remote::BitBucket(p) => Remote::BitBucket(p.clone()),
            Remote::Git(p) => Remote::Git(p.clone()),
        }
    }
}

/// The remote that a host token and a path stand for.
pub open spec fn remote_of(host: Seq<char>, path: Seq<char>) -> Option<RemoteV> {
    let t = text::lower(host);
    if t == "codeberg"@ {
        Some(RemoteV::Codeberg(path))
    } else if t == "github"@ {
        Some(RemoteV::GitHub(path))
    } else if t == "bitbucket"@ {
        Some(RemoteV::BitBucket(path))
    } else if t == "git"@ {
        Some(RemoteV::Git(path))
    } else {
        None
    }
}

impl Remote {
    /// Read a remote from its tokens: the host, then the path. Further tokens are
    /// not looked at.
    pub fn try_from(v: Vec<String>) -> (out: Result<Self, String>)
        ensures
            match out {
                Ok(r) => v@.len() >= 2 && remote_of(v@[0]@, v@[1]@) == Some(r@),
                Err(e) => if v@.len() < 2 {
                    e@ == "remote must have at least 2 elements got: "@ + text::debug_list(
                        text::texts(v@),
                    )
                } else {
                    remote_of(v@[0]@, v@[1]@) is None && e@ == "unknown remote: "@ + text::lower(
                        v@[0]@,
                    )
                },
            },
    {
        if v.len() < 2 {
            let shown = text::debug_list_of(v.as_slice());
            return Err(text::cat("remote must have at least 2 elements got: ", shown.as_str()));
        }
        let path = v[1].clone();
        let host = text::to_ascii_lowercase(v[0].as_str());
        if text::same(host.as_str(), "codeberg") {
            Ok(Remote::Codeberg(path))
        } else if text::same(host.as_str(), "github") {
            Ok(Remote::GitHub(path))
        } else if text::same(host.as_str(), "bitbucket") {
            Ok(Remote::BitBucket(path))
        } else if text::same(host.as_str(), "git") {
            Ok(Remote::Git(path))
        } else {
            Err(text::cat("unknown remote: ", host.as_str()))
        }
    }
}

/// How a dependency is built, with the target asked for.
#[derive(Debug, PartialEq, Eq)]
pub enum BuildSystem {
    Conjure(Option<String>),
    Make(Option<String>),
    CMake(Option<String>),
    Autotools(Option<String>),
    Meson(Option<String>),
    Ninja(Option<String>),
    Xmake(Option<String>),
    Just(String),
    Custom(String),
}

/// The model of a [`BuildSystem`].
pub enum BuildSystemV {
    Conjure(Option<Seq<char>>),
    Make(Option<Seq<char>>),
    CMake(Option<Seq<char>>),
    Autotools(Option<Seq<char>>),
    Meson(Option<Seq<char>>),
    Ninja(Option<Seq<char>>),
    Xmake(Option<Seq<char>>),
    Just(Seq<char>),
    Custom(Seq<char>),
}

impl View for BuildSystem {
    type V = BuildSystemV;

    open spec fn view(&self) -> BuildSystemV {
        match *self {
            BuildSystem::Conjure(t) => BuildSystemV::Conjure(text::opt(t)),
            BuildSystem::Make(t) => BuildSystemV::Make(text::opt(t)),
            BuildSystem::CMake(t) => BuildSystemV::CMake(text::opt(t)),
            BuildSystem::Autotools(t) => BuildSystemV::Autotools(text::opt(t)),
            BuildSystem::Meson(t) => BuildSystemV::Meson(text::opt(t)),
            BuildSystem::Ninja(t) => BuildSystemV::Ninja(text::opt(t)),
            BuildSystem::Xmake(t) => BuildSystemV::Xmake(text::opt(t)),
            BuildSystem::Just(t) => BuildSystemV::Just(t@),
            BuildSystem::Custom(c) => BuildSystemV::Custom(c@),
        }
    }
}

impl Clone for BuildSystem {
    fn clone(&self) -> (out: Self)
        ensures
            out@ == self@,
    {
        match self {
            BuildSystem::Conjure(t) => BuildSystem::Conjure(text::copy_opt(t)),
            BuildSystem::Make(t) => BuildSystem::Make(text::copy_opt(t)),
            BuildSystem::CMake(t) => BuildSystem::CMake(text::copy_opt(t)),
            BuildSystem::Autotools(t) => BuildSystem::Autotools(text::copy_opt(t)),
            BuildSystem::Meson(t) => BuildSystem::Meson(text::copy_opt(t)),
            BuildSystem::Ninja(t) => BuildSystem::Ninja(text::copy_opt(t)),
            BuildSystem::Xmake(t) => BuildSystem::Xmake(text::copy_opt(t)),
            BuildSystem::Just(t) => BuildSystem::Just(t.clone()),
            BuildSystem::Custom(c) => BuildSystem::Custom(c.clone()),
        }
    }
}

/// The second token of a list, if there is one.
pub open spec fn second(v: Seq<Seq<char>>) -> Option<Seq<char>> {
    if v.len() > 1 {
        Some(v[1])
    } else {
        None
    }
}

/// The recipe `just` runs: the second token, or `build` where it is absent or
/// empty.
pub open spec fn recipe(v: Seq<Seq<char>>) -> Seq<char> {
    if v.len() > 1 && v[1].len() > 0 {
        v[1]
    } else {
        "build"@
    }
}

/// The build system that a list of tokens stands for. A first token that names no
/// build system makes the whole list a command.
pub open spec fn build_system_of(v: Seq<Seq<char>>) -> BuildSystemV {
    let t = text::lower(v[0]);
    if v.len() == 0 {
        BuildSystemV::Custom(Seq::empty())
    } else if t == "conjure"@ {
        BuildSystemV::Conjure(second(v))
    } else if t == "make"@ {
        BuildSystemV::Make(second(v))
    } else if t == "cmake"@ {
        BuildSystemV::CMake(second(v))
    } else if t == "autotools"@ {
        BuildSystemV::Autotools(second(v))
    } else if t == "meson"@ {
        BuildSystemV::Meson(second(v))
    } else if t == "ninja"@ {
        BuildSystemV::Ninja(second(v))
    } else if t == "xmake"@ {
        BuildSystemV::Xmake(second(v))
    } else if t == "just"@ {
        BuildSystemV::Just(recipe(v))
    } else {
        BuildSystemV::Custom(text::join(v, " "@))
    }
}

/// Whether a build system can be named: a custom command has a word in it.
pub open spec fn nameable(system: BuildSystemV) -> bool {
    match system {
        BuildSystemV::Custom(cmd) => text::white_words(cmd).len() > 0,
        _ => true,
    }
}

/// The name of a build system, as status lines show it.
pub open spec fn system_name(system: BuildSystemV) -> Seq<char> {
    match system {
        BuildSystemV::Conjure(_) => "conjure"@,
        BuildSystemV::Make(_) => "make"@,
        BuildSystemV::CMake(_) => "cmake"@,
        BuildSystemV::Autotools(_) => "autotools"@,
        BuildSystemV::Meson(_) => "meson"@,
        BuildSystemV::Ninja(_) => "ninja"@,
        BuildSystemV::Xmake(_) => "xmake"@,
        BuildSystemV::Just(_) => "just"@,
        BuildSystemV::Custom(cmd) => "custom ("@ + text::white_words(cmd)[0] + ")"@,
    }
}

fn second_of(v: &Vec<String>) -> (out: Option<String>)
    ensures
        text::opt(out) == second(text::texts(v@)),
{
    if v.len() > 1 {
        Some(v[1].clone())
    } else {
        None
    }
}

impl BuildSystem {
    /// Read a build system from its tokens. Every list is one.
    pub fn try_from(v: Vec<String>) -> (out: Result<Self, String>)
        ensures
            out is Ok,
            out->Ok_0@ == build_system_of(text::texts(v@)),
    {
        if v.len() == 0 {
            return Ok(BuildSystem::Custom(String::new()));
        }
        let low = text::to_ascii_lowercase(v[0].as_str());
        let t = low.as_str();
        let ghost all = text::texts(v@);
        proof {
            assert(all[0] == v@[0]@);
        }
        if text::same(t, "conjure") {
            Ok(BuildSystem::Conjure(second_of(&v)))
        } else if text::same(t, "make") {
            Ok(BuildSystem::Make(second_of(&v)))
        } else if text::same(t, "cmake") {
            Ok(BuildSystem::CMake(second_of(&v)))
        } else if text::same(t, "autotools") {
            Ok(BuildSystem::Autotools(second_of(&v)))
        } else if text::same(t, "meson") {
            Ok(BuildSystem::Meson(second_of(&v)))
        } else if text::same(t, "ninja") {
            Ok(BuildSystem::Ninja(second_of(&v)))
        } else if text::same(t, "xmake") {
            Ok(BuildSystem::Xmake(second_of(&v)))
        } else if text::same(t, "just") {
            if v.len() > 1 && !v[1].as_str().is_empty() {
                Ok(BuildSystem::Just(v[1].clone()))
            } else {
                Ok(BuildSystem::Just("build".to_owned()))
            }
        } else {
            Ok(BuildSystem::Custom(text::join_texts(v.as_slice(), " ")))
        }
    }

    /// The name of the build system, as status lines show it.
    pub fn label(&self) -> (out: String)
        requires
            nameable(self@),
        ensures
            out@ == system_name(self@),
    {
        match self {
            BuildSystem::Conjure(_) => "conjure".to_owned(),
            BuildSystem::Make(_) => "make".to_owned(),
            BuildSystem::CMake(_) => "cmake".to_owned(),
            BuildSystem::Autotools(_) => "autotools".to_owned(),
            BuildSystem::Meson(_) => "meson".to_owned(),
            BuildSystem::Ninja(_) => "ninja".to_owned(),
            BuildSystem::Xmake(_) => "xmake".to_owned(),
            BuildSystem::Just(_) => "just".to_owned(),
            BuildSystem::Custom(cmd) => {
                let words = text::split_whitespace(cmd.as_str());
                proof {
                    assert(text::texts(words@)[0] == words@[0]@);
                }
                text::cat3("custom (", words[0].as_str(), ")")
            },
        }
    }

    /// Whether [`Self::label`] can name this build system.
    pub fn has_label(&self) -> (res: bool)
        ensures
            res == nameable(self@),
    {
        match self {
            BuildSystem::Custom(cmd) => {
                let words = text::split_whitespace(cmd.as_str());
                proof {
                    assert(text::texts(words@).len() == words@.len());
                }
                words.len() > 0
            },
            _ => true,
        }
    }
}

/// A list of flags with merge semantics: `Append` adds to the base list, while
/// `Replace` discards it. The distinction only matters where a profile is folded
/// over a base; a bare `c_flags -O2` reads as `Append`.
#[derive(Debug, PartialEq, Eq)]
pub enum Flags {
    Append(Vec<String>),
    Replace(Vec<String>),
}

/// The model of [`Flags`].
pub enum FlagsV {
    Append(Seq<Seq<char>>),
    Replace(Seq<Seq<char>>),
}

impl View for Flags {
    type V = FlagsV;

    open spec fn view(&self) -> FlagsV {
        match *self {
            Flags::Append(v) => FlagsV::Append(text::texts(v@)),
            Flags::Replace(v) => FlagsV::Replace(text::texts(v@)),
        }
    }
}

impl Clone for Flags {
    fn clone(&self) -> (out: Self)
        ensures
            out@ == self@,
    {
        match self {
            Flags::Append(v) => Flags::Append(text::copy_texts(v.as_slice())),
            Flags::Replace(v) => Flags::Replace(text::copy_texts(v.as_slice())),
        }
    }
}

impl Default for Flags {
    fn default() -> (out: Self)
        ensures
            out@ == FlagsV::Append(Seq::empty()),
    {
        let v: Vec<String> = Vec::new();
        proof {
            assert(text::texts(v@) =~= Seq::empty());
        }
        Flags::Append(v)
    }
}

/// The entries of a flag list, as written.
pub open spec fn written(f: FlagsV) -> Seq<Seq<char>> {
    match f {
        FlagsV::Append(v) => v,
        FlagsV::Replace(v) => v,
    }
}

/// The flags of a list: its entries that are not empty.
pub open spec fn flag_list(f: FlagsV) -> Seq<Seq<char>> {
    text::filled(written(f))
}

/// The flags of an optional list; none where it is absent.
pub open spec fn flags_or_none(f: Option<FlagsV>) -> Seq<Seq<char>> {
    match f {
        Some(x) => flag_list(x),
        None => Seq::empty(),
    }
}

/// The flag list that a list of tokens stands for: a first token may say how it
/// merges.
pub open spec fn flags_of(v: Seq<Seq<char>>) -> FlagsV {
    let t = text::lower(v[0]);
    if v.len() > 0 && (t == "append"@ || t == "add"@ || t == "+"@) {
        FlagsV::Append(v.skip(1))
    } else if v.len() > 0 && (t == "replace"@ || t == "set"@ || t == "="@) {
        FlagsV::Replace(v.skip(1))
    } else {
        FlagsV::Append(v)
    }
}

impl Flags {
    /// The contained flags, empty strings dropped: they appear where a list is
    /// written as `""`.
    pub fn list(&self) -> (out: Vec<String>)
        ensures
            text::texts(out@) == flag_list(self@),
    {
        match self {
            Flags::Append(v) => text::filled_texts(v.as_slice()),
            Flags::Replace(v) => text::filled_texts(v.as_slice()),
        }
    }

    /// Read a flag list from its tokens. Every list is one.
    pub fn try_from(v: Vec<String>) -> (out: Result<Self, String>)
        ensures
            out is Ok,
            out->Ok_0@ == flags_of(text::texts(v@)),
    {
        let mut v = v;
        if v.len() == 0 {
            return Ok(Flags::Append(v));
        }
        let low = text::to_ascii_lowercase(v[0].as_str());
        let t = low.as_str();
        let ghost all = text::texts(v@);
        proof {
            assert(all[0] == v@[0]@);
        }
        if text::same(t, "append") || text::same(t, "add") || text::same(t, "+") {
            v.remove(0);
            proof {
                assert(text::texts(v@) =~= all.skip(1));
            }
            Ok(Flags::Append(v))
        } else if text::same(t, "replace") || text::same(t, "set") || text::same(t, "=") {
            v.remove(0);
            proof {
                assert(text::texts(v@) =~= all.skip(1));
            }
            Ok(Flags::Replace(v))
        } else {
            Ok(Flags::Append(v))
        }
    }
}

/// The flags of an optional list; none where it is absent.
pub fn list_or_none(f: &Option<Flags>) -> (out: Vec<String>)
    ensures
        text::texts(out@) == flags_or_none(text::opt(*f)),
{
    match f {
        Some(x) => x.list(),
        None => {
            let out: Vec<String> = Vec::new();
            proof {
                assert(text::texts(out@) =~= Seq::empty());
            }
            out
        },
    }
}

/// A copy of an optional flag list.
pub fn copy_flags(f: &Option<Flags>) -> (out: Option<Flags>)
    ensures
        text::opt(out) == text::opt(*f),
{
    match f {
        Some(x) => Some(x.clone()),
        None => None,
    }
}

/// A profile's flags folded over a base: `Replace` overrides, otherwise the flags
/// of both follow each other.
pub open spec fn folded(base: Option<FlagsV>, over: Option<FlagsV>) -> Option<FlagsV> {
    match over {
        None => base,
        Some(FlagsV::Replace(v)) => Some(FlagsV::Replace(v)),
        Some(FlagsV::Append(v)) => Some(FlagsV::Append(flags_or_none(base) + text::filled(v))),
    }
}

/// Fold a profile's flags over a base.
pub fn merge_flags(base: &Option<Flags>, over: &Option<Flags>) -> (out: Option<Flags>)
    ensures
        text::opt(out) == folded(text::opt(*base), text::opt(*over)),
{
    match over {
        None => copy_flags(base),
        Some(Flags::Replace(v)) => Some(Flags::Replace(text::copy_texts(v.as_slice()))),
        Some(Flags::Append(v)) => {
            let mut out = list_or_none(base);
            let more = text::filled_texts(v.as_slice());
            text::extend_texts(&mut out, more.as_slice());
            Some(Flags::Append(out))
        },
    }
}

/// Compiler and linker settings.
#[derive(Debug)]
pub struct Compile {
    pub cc: Option<String>,
    pub linker: Option<String>,
    pub standard: Option<String>,
    pub includes: Option<Flags>,
    pub src: Option<Flags>,
    pub c_flags: Option<Flags>,
    pub ld_flags: Option<Flags>,
    pub threads: Option<usize>,
    pub arch: Option<Arch>,
}

/// The model of [`Compile`].
pub struct CompileV {
    pub cc: Option<Seq<char>>,
    pub linker: Option<Seq<char>>,
    pub standard: Option<Seq<char>>,
    pub includes: Option<FlagsV>,
    pub src: Option<FlagsV>,
    pub c_flags: Option<FlagsV>,
    pub ld_flags: Option<FlagsV>,
    pub threads: Option<usize>,
    pub arch: Option<Arch>,
}

impl View for Compile {
    type V = CompileV;

    open spec fn view(&self) -> CompileV {
        CompileV {
            cc: text::opt(self.cc),
            linker: text::opt(self.linker),
            standard: text::opt(self.standard),
            includes: text::opt(self.includes),
            src: text::opt(self.src),
            c_flags: text::opt(self.c_flags),
            ld_flags: text::opt(self.ld_flags),
            threads: self.threads,
            arch: self.arch,
        }
    }
}

impl Clone for Compile {
    fn clone(&self) -> (out: Self)
        ensures
            out@ == self@,
    {
        Compile {
            cc: text::copy_opt(&self.cc),
            linker: text::copy_opt(&self.linker),
            standard: text::copy_opt(&self.standard),
            includes: copy_flags(&self.includes),
            src: copy_flags(&self.src),
            c_flags: copy_flags(&self.c_flags),
            ld_flags: copy_flags(&self.ld_flags),
            threads: self.threads,
            arch: self.arch,
        }
    }
}

/// Settings with nothing set.
pub open spec fn no_compile() -> CompileV {
    CompileV {
        cc: None,
        linker: None,
        standard: None,
        includes: None,
        src: None,
        c_flags: None,
        ld_flags: None,
        threads: None,
        arch: None,
    }
}

impl Default for Compile {
    fn default() -> (out: Self)
        ensures
            out@ == no_compile(),
    {
        Compile {
            cc: None,
            linker: None,
            standard: None,
            includes: None,
            src: None,
            c_flags: None,
            ld_flags: None,
            threads: None,
            arch: None,
        }
    }
}

/// The source roots of a project: the flags of `src`, or `src` itself where there
/// are none.
pub open spec fn roots(src: Option<FlagsV>) -> Seq<Seq<char>> {
    if flags_or_none(src).len() == 0 {
        seq!["src"@]
    } else {
        flags_or_none(src)
    }
}

/// A profile's settings folded over a project's: scalars override when set, lists
/// merge.
pub open spec fn compile_with(c: CompileV, p: ProfileV) -> CompileV {
    CompileV {
        cc: text::either(p.cc, c.cc),
        linker: text::either(p.linker, c.linker),
        standard: text::either(p.standard, c.standard),
        includes: folded(c.includes, p.includes),
        src: folded(c.src, p.src),
        c_flags: folded(c.c_flags, p.c_flags),
        ld_flags: folded(c.ld_flags, p.ld_flags),
        threads: text::either(p.threads, c.threads),
        arch: text::either(p.arch, c.arch),
    }
}

impl Compile {
    /// Source roots to recurse for compilation, falling back to `src` when unset
    /// or empty.
    pub fn src_roots(&self) -> (out: Vec<String>)
        ensures
            text::texts(out@) == roots(self@.src),
    {
        let out = list_or_none(&self.src);
        proof {
            assert(text::texts(out@).len() == out@.len());
        }
        if out.len() == 0 {
            let mut out: Vec<String> = Vec::new();
            text::push_text(&mut out, "src");
            proof {
                assert(text::texts(out@) =~= seq!["src"@]);
            }
            out
        } else {
            out
        }
    }

    /// Fold a profile's compile settings over these.
    pub fn with_profile(&self, p: &Profile) -> (out: Compile)
        ensures
            out@ == compile_with(self@, p@),
    {
        Compile {
            cc: text::either_text(&p.cc, &self.cc),
            linker: text::either_text(&p.linker, &self.linker),
            standard: text::either_text(&p.standard, &self.standard),
            includes: merge_flags(&self.includes, &p.includes),
            src: merge_flags(&self.src, &p.src),
            c_flags: merge_flags(&self.c_flags, &p.c_flags),
            ld_flags: merge_flags(&self.ld_flags, &p.ld_flags),
            threads: if p.threads.is_some() {
                p.threads
            } else {
                self.threads
            },
            arch: if p.arch.is_some() {
                p.arch
            } else {
                self.arch
            },
        }
    }
}

/// A project built alongside another one.
#[derive(Debug)]
pub struct Sibling {
    pub path: String,
}

impl View for Sibling {
    type V = Seq<char>;

    open spec fn view(&self) -> Seq<char> {
        self.path@
    }
}

impl Clone for Sibling {
    fn clone(&self) -> (out: Self)
        ensures
            out@ == self@,
    {
        Sibling { path: self.path.clone() }
    }
}

impl Duplicate for Sibling {
    fn duplicate(&self) -> (out: Self) {
        self.clone()
    }
}

/// A test target: its sources, and what it adds to the project's settings.
#[derive(Debug)]
pub struct Test {
    pub src: Option<Flags>,
    pub includes: Option<Flags>,
    pub c_flags: Option<Flags>,
    pub ld_flags: Option<Flags>,
}

/// The model of a [`Test`].
pub struct TestV {
    pub src: Option<FlagsV>,
    pub includes: Option<FlagsV>,
    pub c_flags: Option<FlagsV>,
    pub ld_flags: Option<FlagsV>,
}

impl View for Test {
    type V = TestV;

    open spec fn view(&self) -> TestV {
        TestV {
            src: text::opt(self.src),
            includes: text::opt(self.includes),
            c_flags: text::opt(self.c_flags),
            ld_flags: text::opt(self.ld_flags),
        }
    }
}

impl Clone for Test {
    fn clone(&self) -> (out: Self)
        ensures
            out@ == self@,
    {
        Test {
            src: copy_flags(&self.src),
            includes: copy_flags(&self.includes),
            c_flags: copy_flags(&self.c_flags),
            ld_flags: copy_flags(&self.ld_flags),
        }
    }
}

impl Duplicate for Test {
    fn duplicate(&self) -> (out: Self) {
        self.clone()
    }
}

/// Where artifacts go.
#[derive(Debug)]
pub struct Output {
    pub bin: Option<String>,
    pub lib: Option<String>,
    pub symlink_binaries: Option<bool>,
}

/// The model of an [`Output`].
pub struct OutputV {
    pub bin: Option<Seq<char>>,
    pub lib: Option<Seq<char>>,
    pub symlink_binaries: Option<bool>,
}

impl View for Output {
    type V = OutputV;

    open spec fn view(&self) -> OutputV {
        OutputV {
            bin: text::opt(self.bin),
            lib: text::opt(self.lib),
            symlink_binaries: self.symlink_binaries,
        }
    }
}

impl Clone for Output {
    fn clone(&self) -> (out: Self)
        ensures
            out@ == self@,
    {
        Output {
            bin: text::copy_opt(&self.bin),
            lib: text::copy_opt(&self.lib),
            symlink_binaries: self.symlink_binaries,
        }
    }
}

impl Default for Output {
    fn default() -> (out: Self)
        ensures
            out@ == (OutputV { bin: None, lib: None, symlink_binaries: None }),
    {
        Output { bin: None, lib: None, symlink_binaries: None }
    }
}

/// A dependency: where it comes from and how it is built.
#[derive(Debug)]
pub struct Dependency {
    pub remote: Option<Remote>,
    pub local: Option<String>,
    pub transport: Option<Transport>,
    pub build: Option<BuildSystem>,
    pub includes: Option<Vec<String>>,
    pub src: Option<Vec<String>>,
    pub pkg_config: Option<Vec<String>>,
    pub git_ref: Option<String>,
}

/// The model of a [`Dependency`].
pub struct DependencyV {
    pub remote: Option<RemoteV>,
    pub local: Option<Seq<char>>,
    pub transport: Option<Transport>,
    pub build: Option<BuildSystemV>,
    pub includes: Option<Seq<Seq<char>>>,
    pub src: Option<Seq<Seq<char>>>,
    pub pkg_config: Option<Seq<Seq<char>>>,
    pub git_ref: Option<Seq<char>>,
}

impl View for Dependency {
    type V = DependencyV;

    open spec fn view(&self) -> DependencyV {
        DependencyV {
            remote: text::opt(self.remote),
            local: text::opt(self.local),
            transport: self.transport,
            build: text::opt(self.build),
            includes: text::opt_texts(self.includes),
            src: text::opt_texts(self.src),
            pkg_config: text::opt_texts(self.pkg_config),
            git_ref: text::opt(self.git_ref),
        }
    }
}

/// A copy of an optional remote.
pub fn copy_remote(r: &Option<Remote>) -> (out: Option<Remote>)
    ensures
        text::opt(out) == text::opt(*r),
{
    match r {
        Some(x) => Some(x.clone()),
        None => None,
    }
}

impl Clone for Dependency {
    fn clone(&self) -> (out: Self)
        ensures
            out@ == self@,
    {
        Dependency {
            remote: copy_remote(&self.remote),
            local: text::copy_opt(&self.local),
            transport: self.transport,
            build: match &self.build {
                Some(b) => Some(b.clone()),
                None => None,
            },
            includes: text::copy_opt_texts(&self.includes),
            src: text::copy_opt_texts(&self.src),
            pkg_config: text::copy_opt_texts(&self.pkg_config),
            git_ref: text::copy_opt(&self.git_ref),
        }
    }
}

impl Duplicate for Dependency {
    fn duplicate(&self) -> (out: Self) {
        self.clone()
    }
}

/// A dependency with nothing set.
pub open spec fn no_dependency() -> DependencyV {
    DependencyV {
        remote: None,
        local: None,
        transport: None,
        build: None,
        includes: None,
        src: None,
        pkg_config: None,
        git_ref: None,
    }
}

impl Default for Dependency {
    fn default() -> (out: Self)
        ensures
            out@ == no_dependency(),
    {
        Dependency {
            remote: None,
            local: None,
            transport: None,
            build: None,
            includes: None,
            src: None,
            pkg_config: None,
            git_ref: None,
        }
    }
}

/// What is wrong with a dependency, if anything: it needs exactly one of `remote`
/// and `local`, and a local one has no transport.
pub open spec fn fault(d: DependencyV) -> Option<Seq<char>> {
    if d.remote is Some && d.local is Some {
        Some("Remote and local cannot be used at the same time"@)
    } else if d.remote is None && d.local is None {
        Some("Remote or local must be used"@)
    } else if d.local is Some && d.transport is Some {
        Some("Transport cannot be used with local"@)
    } else {
        None
    }
}

impl Dependency {
    /// Reject the incompatible combinations.
    pub fn validate(&self) -> (out: Result<(), String>)
        ensures
            match out {
                Ok(()) => fault(self@) is None,
                Err(e) => fault(self@) == Some(e@),
            },
    {
        if self.remote.is_some() && self.local.is_some() {
            Err("Remote and local cannot be used at the same time".to_owned())
        } else if self.remote.is_none() && self.local.is_none() {
            Err("Remote or local must be used".to_owned())
        } else if self.local.is_some() && self.transport.is_some() {
            Err("Transport cannot be used with local".to_owned())
        } else {
            Ok(())
        }
    }
}

/// A named set of overrides.
#[derive(Debug)]
pub struct Profile {
    pub ty: Option<ProjectType>,
    pub link: Option<Linkage>,
    pub cc: Option<String>,
    pub linker: Option<String>,
    pub standard: Option<String>,
    pub includes: Option<Flags>,
    pub src: Option<Flags>,
    pub c_flags: Option<Flags>,
    pub ld_flags: Option<Flags>,
    pub threads: Option<usize>,
    pub arch: Option<Arch>,
    pub artifact: Option<String>,
    pub generate_pc: Option<bool>,
    pub tests: Option<NameMap<Test>>,
    pub dependencies: Option<NameMap<Dependency>>,
    /// The profiles that this one inherits from, applied before it, in order.
    pub extends: Vec<String>,
}

/// The model of a [`Profile`].
pub struct ProfileV {
    pub ty: Option<ProjectType>,
    pub link: Option<Linkage>,
    pub cc: Option<Seq<char>>,
    pub linker: Option<Seq<char>>,
    pub standard: Option<Seq<char>>,
    pub includes: Option<FlagsV>,
    pub src: Option<FlagsV>,
    pub c_flags: Option<FlagsV>,
    pub ld_flags: Option<FlagsV>,
    pub threads: Option<usize>,
    pub arch: Option<Arch>,
    pub artifact: Option<Seq<char>>,
    pub generate_pc: Option<bool>,
    pub tests: Option<Seq<(Seq<char>, TestV)>>,
    pub dependencies: Option<Seq<(Seq<char>, DependencyV)>>,
    pub extends: Seq<Seq<char>>,
}

impl View for Profile {
    type V = ProfileV;

    open spec fn view(&self) -> ProfileV {
        ProfileV {
            ty: self.ty,
            link: self.link,
            cc: text::opt(self.cc),
            linker: text::opt(self.linker),
            standard: text::opt(self.standard),
            includes: text::opt(self.includes),
            src: text::opt(self.src),
            c_flags: text::opt(self.c_flags),
            ld_flags: text::opt(self.ld_flags),
            threads: self.threads,
            arch: self.arch,
            artifact: text::opt(self.artifact),
            generate_pc: self.generate_pc,
            tests: text::opt(self.tests),
            dependencies: text::opt(self.dependencies),
            extends: text::texts(self.extends@),
        }
    }
}

impl Clone for Profile {
    fn clone(&self) -> (out: Self)
        ensures
            out@ == self@,
    {
        Profile {
            ty: self.ty,
            link: self.link,
            cc: text::copy_opt(&self.cc),
            linker: text::copy_opt(&self.linker),
            standard: text::copy_opt(&self.standard),
            includes: copy_flags(&self.includes),
            src: copy_flags(&self.src),
            c_flags: copy_flags(&self.c_flags),
            ld_flags: copy_flags(&self.ld_flags),
            threads: self.threads,
            arch: self.arch,
            artifact: text::copy_opt(&self.artifact),
            generate_pc: self.generate_pc,
            tests: names::copy_table(&self.tests),
            dependencies: names::copy_table(&self.dependencies),
            extends: text::copy_texts(self.extends.as_slice()),
        }
    }
}

impl Duplicate for Profile {
    fn duplicate(&self) -> (out: Self) {
        self.clone()
    }
}

/// A profile that overrides nothing.
pub open spec fn no_profile() -> ProfileV {
    ProfileV {
        ty: None,
        link: None,
        cc: None,
        linker: None,
        standard: None,
        includes: None,
        src: None,
        c_flags: None,
        ld_flags: None,
        threads: None,
        arch: None,
        artifact: None,
        generate_pc: None,
        tests: None,
        dependencies: None,
        extends: Seq::empty(),
    }
}

impl Default for Profile {
    fn default() -> (out: Self)
        ensures
            out@ == no_profile(),
    {
        Profile {
            ty: None,
            link: None,
            cc: None,
            linker: None,
            standard: None,
            includes: None,
            src: None,
            c_flags: None,
            ld_flags: None,
            threads: None,
            arch: None,
            artifact: None,
            generate_pc: None,
            tests: None,
            dependencies: None,
            extends: text::none(),
        }
    }
}

/// A project, as its manifest describes it.
#[derive(Debug)]
pub struct Project {
    pub name: String,
    pub language: Language,
    pub ty: ProjectType,
    pub link: Linkage,
    pub version: Option<String>,
    pub license: Option<String>,
    pub authors: Option<Vec<String>>,
    pub description: Option<String>,
    pub compile: Option<Compile>,
    pub siblings: Option<NameMap<Sibling>>,
    pub tests: Option<NameMap<Test>>,
    pub profiles: Option<NameMap<Profile>>,
    pub dependencies: Option<NameMap<Dependency>>,
    pub output: Option<Output>,
    /// What the artifact is called, where that is not the project's name.
    pub artifact: Option<String>,
    /// Whether a pkg-config file is written for a library; it is unless this says
    /// no.
    pub generate_pc: Option<bool>,
}

/// The model of a [`Project`].
pub struct ProjectV {
    pub name: Seq<char>,
    pub language: Language,
    pub ty: ProjectType,
    pub link: Linkage,
    pub version: Option<Seq<char>>,
    pub license: Option<Seq<char>>,
    pub authors: Option<Seq<Seq<char>>>,
    pub description: Option<Seq<char>>,
    pub compile: Option<CompileV>,
    pub siblings: Option<Seq<(Seq<char>, Seq<char>)>>,
    pub tests: Option<Seq<(Seq<char>, TestV)>>,
    pub profiles: Option<Seq<(Seq<char>, ProfileV)>>,
    pub dependencies: Option<Seq<(Seq<char>, DependencyV)>>,
    pub output: Option<OutputV>,
    pub artifact: Option<Seq<char>>,
    pub generate_pc: Option<bool>,
}

impl View for Project {
    type V = ProjectV;

    open spec fn view(&self) -> ProjectV {
        ProjectV {
            name: self.name@,
            language: self.language,
            ty: self.ty,
            link: self.link,
            version: text::opt(self.version),
            license: text::opt(self.license),
            authors: text::opt_texts(self.authors),
            description: text::opt(self.description),
            compile: text::opt(self.compile),
            siblings: text::opt(self.siblings),
            tests: text::opt(self.tests),
            profiles: text::opt(self.profiles),
            dependencies: text::opt(self.dependencies),
            output: text::opt(self.output),
            artifact: text::opt(self.artifact),
            generate_pc: self.generate_pc,
        }
    }
}

impl Clone for Project {
    fn clone(&self) -> (out: Self)
        ensures
            out@ == self@,
    {
        Project {
            name: self.name.clone(),
            language: self.language,
            ty: self.ty,
            link: self.link,
            version: text::copy_opt(&self.version),
            license: text::copy_opt(&self.license),
            authors: text::copy_opt_texts(&self.authors),
            description: text::copy_opt(&self.description),
            compile: match &self.compile {
                Some(c) => Some(c.clone()),
                None => None,
            },
            siblings: names::copy_table(&self.siblings),
            tests: names::copy_table(&self.tests),
            profiles: names::copy_table(&self.profiles),
            dependencies: names::copy_table(&self.dependencies),
            output: match &self.output {
                Some(o) => Some(o.clone()),
                None => None,
            },
            artifact: text::copy_opt(&self.artifact),
            generate_pc: self.generate_pc,
        }
    }
}

/// A project with nothing set: a C binary, linked dynamically, without a name.
pub open spec fn no_project() -> ProjectV {
    ProjectV {
        name: Seq::empty(),
        language: Language::C,
        ty: ProjectType::Binary,
        link: Linkage::Dynamic,
        version: None,
        license: None,
        authors: None,
        description: None,
        compile: None,
        siblings: None,
        tests: None,
        profiles: None,
        dependencies: None,
        output: None,
        artifact: None,
        generate_pc: None,
    }
}

impl Default for Project {
    fn default() -> (out: Self)
        ensures
            out@ == no_project(),
    {
        Project {
            name: String::new(),
            language: Language::C,
            ty: ProjectType::Binary,
            link: Linkage::Dynamic,
            version: None,
            license: None,
            authors: None,
            description: None,
            compile: None,
            siblings: None,
            tests: None,
            profiles: None,
            dependencies: None,
            output: None,
            artifact: None,
            generate_pc: None,
        }
    }
}

/// The compile settings of a project, with nothing set where the section is
/// absent.
pub open spec fn compile_or_none(c: Option<CompileV>) -> CompileV {
    match c {
        Some(x) => x,
        None => no_compile(),
    }
}

/// A project with the overrides of one profile folded over it.
pub open spec fn overridden(p: ProjectV, f: ProfileV) -> ProjectV {
    ProjectV {
        ty: match f.ty {
            Some(t) => t,
            None => p.ty,
        },
        link: match f.link {
            Some(l) => l,
            None => p.link,
        },
        compile: Some(compile_with(compile_or_none(p.compile), f)),
        dependencies: names::merged_opt(p.dependencies, f.dependencies),
        tests: names::merged_opt(p.tests, f.tests),
        artifact: text::either(f.artifact, p.artifact),
        generate_pc: text::either(f.generate_pc, p.generate_pc),
        ..p
    }
}

/// A project with the overrides of some profiles of a table folded over it, one
/// after the other, each behind the ones that it extends itself. A name that is not
/// in the table is passed over. Inheritance goes `depth` profiles deep.
pub open spec fn inherited(
    p: ProjectV,
    m: Seq<(Seq<char>, ProfileV)>,
    extends: Seq<Seq<char>>,
    depth: nat,
) -> ProjectV
    decreases depth, extends.len(),
{
    if extends.len() == 0 {
        p
    } else {
        let before = inherited(p, m, extends.drop_last(), depth);
        match names::lookup(m, extends.last()) {
            Some(g) => if depth == 0 {
                before
            } else {
                overridden(inherited(before, m, g.extends, (depth - 1) as nat), g)
            },
            None => before,
        }
    }
}

/// The profiles of a project.
pub open spec fn profile_table(p: ProjectV) -> Seq<(Seq<char>, ProfileV)> {
    match p.profiles {
        Some(m) => m,
        None => Seq::empty(),
    }
}

/// What a profile is folded over: the project with everything that the profile
/// inherits. A line of profiles that extend each other is no longer than the table,
/// so that only a circle is cut.
pub open spec fn base_for(p: ProjectV, f: ProfileV) -> ProjectV {
    inherited(p, profile_table(p), f.extends, profile_table(p).len())
}

/// The effective project of a build: the overrides of a profile, and before them
/// those of the profiles it extends, folded over the base; or the base unchanged
/// where there is no profile.
pub open spec fn effective(p: ProjectV, profile: Option<ProfileV>) -> ProjectV {
    match profile {
        None => p,
        Some(f) => overridden(base_for(p, f), f),
    }
}

/// The profile a project defines under a name.
pub open spec fn profile_of(p: ProjectV, name: Seq<char>) -> Option<ProfileV> {
    match p.profiles {
        Some(m) => names::lookup(m, name),
        None => None,
    }
}

/// The first entry of a table of dependencies that is invalid, as the message
/// that reports it.
pub open spec fn first_fault(deps: Seq<(Seq<char>, DependencyV)>) -> Option<Seq<char>>
    decreases deps.len(),
{
    if deps.len() == 0 {
        None
    } else {
        let front = first_fault(deps.drop_last());
        if front is Some {
            front
        } else {
            match fault(deps.last().1) {
                Some(e) => Some("dependency `"@ + deps.last().0 + "`: "@ + e),
                None => None,
            }
        }
    }
}

/// What is wrong with a project's dependencies, if anything.
pub open spec fn project_fault(p: ProjectV) -> Option<Seq<char>> {
    match p.dependencies {
        Some(d) => first_fault(d),
        None => None,
    }
}

proof fn lemma_first_fault(deps: Seq<(Seq<char>, DependencyV)>, n: int)
    requires
        0 <= n <= deps.len(),
        first_fault(deps.take(n)) is Some,
    ensures
        first_fault(deps) == first_fault(deps.take(n)),
    decreases deps.len() - n,
{
    if n < deps.len() {
        assert(deps.take(n + 1).drop_last() =~= deps.take(n));
        lemma_first_fault(deps, n + 1);
    } else {
        assert(deps.take(n) =~= deps);
    }
}

impl Project {
    /// Whether this project links statically, i.e. `link static`.
    pub fn want_static(&self) -> (res: bool)
        ensures
            res == (self@.link == Linkage::Static),
    {
        match self.link {
            Linkage::Static => true,
            Linkage::Dynamic => false,
        }
    }

    /// Whether this project produces a library rather than a binary.
    pub fn is_library(&self) -> (res: bool)
        ensures
            res == (self@.ty == ProjectType::Library),
    {
        match self.ty {
            ProjectType::Library => true,
            ProjectType::Binary => false,
        }
    }

    /// `name` resolved against this project's own profiles, or `None` when it
    /// does not define one (the build falls back to default).
    pub fn profile<'a>(&'a self, name: &'a str) -> (out: Option<(&'a str, &'a Profile)>)
        ensures
            match out {
                Some((n, p)) => n@ == name@ && profile_of(self@, name@) == Some(p@),
                None => profile_of(self@, name@) is None,
            },
    {
        match &self.profiles {
            Some(m) => match m.get(name) {
                Some(p) => Some((name, p)),
                None => None,
            },
            None => None,
        }
    }

    /// This project with the overrides of one profile.
    fn overridden_by(&self, p: &Profile) -> (out: Project)
        ensures
            out@ == overridden(self@, p@),
    {
        let mut out = self.clone();
        if let Some(ty) = p.ty {
            out.ty = ty;
        }
        if let Some(link) = p.link {
            out.link = link;
        }
        let compile = match &out.compile {
            Some(c) => c.with_profile(p),
            None => Compile::default().with_profile(p),
        };
        out.compile = Some(compile);
        out.dependencies = names::merge_tables(&self.dependencies, &p.dependencies);
        out.tests = names::merge_tables(&self.tests, &p.tests);
        out.artifact = text::either_text(&p.artifact, &self.artifact);
        if p.generate_pc.is_some() {
            out.generate_pc = p.generate_pc;
        }
        out
    }

    /// This project with the overrides of some profiles of a table.
    fn inheriting(&self, profiles: &NameMap<Profile>, extends: &[String], depth: usize) -> (out:
        Project)
        ensures
            out@ == inherited(self@, profiles@, text::texts(extends@), depth as nat),
        decreases depth,
    {
        let ghost all = text::texts(extends@);
        let mut out = self.clone();
        let mut i: usize = 0;
        proof {
            assert(all.take(0) =~= Seq::empty());
        }
        while i < extends.len()
            invariant
                i <= extends@.len(),
                all == text::texts(extends@),
                out@ == inherited(self@, profiles@, all.take(i as int), depth as nat),
            decreases extends@.len() - i,
        {
            proof {
                assert(all.take(i + 1).drop_last() =~= all.take(i as int));
                assert(all.take(i + 1).last() == extends@[i as int]@);
            }
            if let Some(g) = profiles.get(extends[i].as_str()) {
                if depth > 0 {
                    let base = out.inheriting(profiles, g.extends.as_slice(), depth - 1);
                    out = base.overridden_by(g);
                }
            }
            i += 1;
        }
        proof {
            assert(all.take(i as int) =~= all);
        }
        out
    }

    /// The effective project for a build: `Some(profile)` folds its overrides over
    /// the base, behind those of the profiles it extends; `None` returns a copy
    /// unchanged.
    pub fn with_profile(&self, profile: Option<&Profile>) -> (out: Project)
        ensures
            out@ == effective(
                self@,
                match profile {
                    Some(p) => Some(p@),
                    None => None,
                },
            ),
    {
        match profile {
            None => self.clone(),
            Some(p) => {
                let base = match &self.profiles {
                    Some(m) => self.inheriting(m, p.extends.as_slice(), m.len()),
                    None => {
                        let none: NameMap<Profile> = NameMap::new();
                        self.inheriting(&none, p.extends.as_slice(), 0)
                    },
                };
                base.overridden_by(p)
            },
        }
    }

    /// Check every dependency, in manifest order; the first invalid one is
    /// reported.
    pub fn validate(&self) -> (out: Result<(), String>)
        ensures
            match out {
                Ok(()) => project_fault(self@) is None,
                Err(e) => project_fault(self@) == Some(e@),
            },
    {
        match &self.dependencies {
            None => Ok(()),
            Some(deps) => {
                let mut i: usize = 0;
                proof {
                    assert(deps@.take(0) =~= Seq::empty());
                }
                while i < deps.len()
                    invariant
                        i <= deps@.len(),
                        first_fault(deps@.take(i as int)) is None,
                        project_fault(self@) == first_fault(deps@),
                    decreases deps@.len() - i,
                {
                    proof {
                        assert(deps@.take(i + 1).drop_last() =~= deps@.take(i as int));
                    }
                    match deps.value_at(i).validate() {
                        Ok(()) => {},
                        Err(e) => {
                            let mut message = text::cat3("dependency `", deps.name_at(i), "`: ");
                            message.append(e.as_str());
                            proof {
                                lemma_first_fault(deps@, i + 1);
                            }
                            return Err(message);
                        },
                    }
                    i += 1;
                }
                proof {
                    assert(deps@.take(i as int) =~= deps@);
                }
                Ok(())
            },
        }
    }
}

/// The document a manifest is: its single `project` node.
#[derive(Debug)]
pub struct ProjectKDL {
    pub project: Project,
}

/// What `str::to_lowercase` makes of a text.
pub uninterp spec fn lowercase(s: Seq<char>) -> Seq<char>;

/// What `char::is_alphanumeric` says of a character.
pub uninterp spec fn alphanumeric(c: char) -> bool;

/// Whether every character of a text is in the ASCII range.
pub open spec fn all_ascii(s: Seq<char>) -> bool {
    forall|i: int| 0 <= i < s.len() ==> #[trigger] s[i] < '\u{80}'
}

/// Whether `c` is an ASCII letter or digit.
pub open spec fn ascii_alphanumeric(c: char) -> bool {
    ('a' <= c && c <= 'z') || ('A' <= c && c <= 'Z') || ('0' <= c && c <= '9')
}

/// `str::to_lowercase`, Unicode's lower case mapping. The result is named; on
/// ASCII text it is the ASCII mapping.
#[verifier::external_body]
pub(crate) fn lowercase_of(s: &str) -> (out: String)
    ensures
        out@ == lowercase(s@),
        all_ascii(s@) ==> out@ == text::lower(s@),
{
    s.to_lowercase()
}

/// `char::is_alphanumeric`, Unicode's alphabetic and numeric characters. The
/// result is named; in the ASCII range these are the letters and digits.
#[verifier::external_body]
pub(crate) fn is_alphanumeric(c: char) -> (res: bool)
    ensures
        res == alphanumeric(c),
        c < '\u{80}' ==> res == ascii_alphanumeric(c),
{
    c.is_alphanumeric()
}

/// What [`lowercase_of`] makes of a text.
pub open spec fn lowered(s: Seq<char>) -> Seq<char> {
    if all_ascii(s) {
        text::lower(s)
    } else {
        lowercase(s)
    }
}

/// Whether `c` is a letter or a digit.
pub open spec fn letter(c: char) -> bool {
    if '\u{80}' <= c {
        alphanumeric(c)
    } else {
        ascii_alphanumeric(c)
    }
}

/// The letters and digits of a text, in order.
pub open spec fn letters(s: Seq<char>) -> Seq<char> {
    s.filter(|c: char| letter(c))
}

/// A text with everything but letters and digits turned into `-`.
pub open spec fn dashed(s: Seq<char>) -> Seq<char> {
    s.map_values(
        |c: char|
            if letter(c) {
                c
            } else {
                '-'
            },
    )
}

/// The runs of letters and digits of a text, joined by single dashes.
pub open spec fn slug(s: Seq<char>) -> Seq<char> {
    text::join(text::filled(text::split(dashed(s), text::Cut::At('-'))), "-"@)
}

/// The runs of letters and digits of a text, joined by single dashes.
pub fn slug_of(s: &str) -> (out: String)
    ensures
        out@ == slug(s@),
{
    let cs = text::chars_of(s);
    let mut flat = String::new();
    let mut i: usize = 0;
    while i < cs.len()
        invariant
            i <= cs@.len(),
            cs@ == s@,
            flat@ == dashed(s@).take(i as int),
        decreases cs@.len() - i,
    {
        if is_alphanumeric(cs[i]) {
            flat.push(cs[i]);
        } else {
            flat.push('-');
        }
        i += 1;
        proof {
            assert(dashed(s@).take(i as int) =~= dashed(s@).take(i - 1).push(dashed(s@)[i - 1]));
        }
    }
    proof {
        assert(dashed(s@).take(i as int) =~= dashed(s@));
    }
    let parts = text::split_text(flat.as_str(), text::Cut::At('-'));
    let runs = text::filled_texts(parts.as_slice());
    text::join_texts(runs.as_slice(), "-")
}

/// Lowercase, keep alphanumerics, collapse every other run into a single `-`.
pub fn slugify(input: &str) -> (out: String)
    ensures
        out@ == slug(lowered(input@)),
{
    let low = lowercase_of(input);
    slug_of(low.as_str())
}

proof fn lemma_join_chars(v: Seq<Seq<char>>, sep: Seq<char>, good: spec_fn(char) -> bool)
    requires
        forall|i: int, j: int| 0 <= i < v.len() && 0 <= j < v[i].len() ==> good(#[trigger] v[i][j]),
        forall|j: int| 0 <= j < sep.len() ==> good(#[trigger] sep[j]),
    ensures
        forall|i: int| 0 <= i < text::join(v, sep).len() ==> good(#[trigger] text::join(v, sep)[i]),
    decreases v.len(),
{
    if v.len() > 1 {
        let front = v.drop_last();
        assert forall|i: int, j: int| 0 <= i < front.len() && 0 <= j < front[i].len() implies good(
            #[trigger] front[i][j],
        ) by {
            assert(good(v[i][j]));
        }
        lemma_join_chars(front, sep, good);
        let all = text::join(v, sep);
        let head = text::join(front, sep);
        assert forall|i: int| 0 <= i < all.len() implies good(#[trigger] all[i]) by {
            if i < head.len() {
                assert(all[i] == head[i]);
            } else if i < head.len() + sep.len() {
                assert(all[i] == sep[i - head.len()]);
            } else {
                assert(all[i] == v[v.len() - 1][i - head.len() - sep.len()]);
            }
        }
    } else if v.len() == 1 {
        assert forall|i: int| 0 <= i < text::join(v, sep).len() implies good(
            #[trigger] text::join(v, sep)[i],
        ) by {
            assert(good(v[0][i]));
        }
    }
}

/// The runs a slug is made of: each is a non-empty run of letters and digits.
proof fn lemma_runs(s: Seq<char>)
    ensures
        ({
            let runs = text::filled(text::split(dashed(s), text::Cut::At('-')));
            &&& forall|i: int| 0 <= i < runs.len() ==> (#[trigger] runs[i]).len() > 0
            &&& forall|i: int, j: int|
                0 <= i < runs.len() && 0 <= j < runs[i].len() ==> #[trigger] runs[i][j] != '-'
                    && letter(runs[i][j])
        }),
{
    let parts = text::split(dashed(s), text::Cut::At('-'));
    let runs = text::filled(parts);
    text::lemma_filled(parts);
    text::lemma_split_parts(dashed(s), text::Cut::At('-'));
    assert forall|i: int, j: int| 0 <= i < runs.len() && 0 <= j < runs[i].len() implies #[trigger] runs[i][j]
        != '-' && letter(runs[i][j]) by {
        assert(parts.contains(runs[i]));
        let k = choose|k: int| 0 <= k < parts.len() && parts[k] == runs[i];
        assert(!text::Cut::At('-').cuts(parts[k][j]));
        assert(dashed(s).contains(parts[k][j]));
        let m = choose|m: int| 0 <= m < dashed(s).len() && dashed(s)[m] == parts[k][j];
        assert(dashed(s)[m] != '-');
    }
}

/// A slug holds letters, digits and dashes only, and a slug is its own slug.
pub proof fn law_slug(s: Seq<char>)
    ensures
        forall|i: int|
            0 <= i < slug(s).len() ==> #[trigger] slug(s)[i] == '-' || letter(slug(s)[i]),
        slug(slug(s)) == slug(s),
{
    let runs = text::filled(text::split(dashed(s), text::Cut::At('-')));
    reveal_strlit("-");
    assert("-"@ =~= seq!['-']);
    lemma_runs(s);
    let good = |c: char| c == '-' || letter(c);
    lemma_join_chars(runs, "-"@, good);
    let t = slug(s);
    assert forall|i: int| 0 <= i < t.len() implies #[trigger] t[i] == '-' || letter(t[i]) by {
        assert(good(text::join(runs, "-"@)[i]));
    }
    assert(dashed(t) =~= t);
    if runs.len() > 0 {
        text::law_split_undoes_join(runs, '-');
        text::lemma_filled(runs);
    } else {
        assert(t =~= Seq::empty());
        reveal_with_fuel(Seq::filter, 2);
        assert(text::split(t, text::Cut::At('-')) =~= seq![Seq::<char>::empty()]);
        let one = seq![Seq::<char>::empty()];
        assert(one.drop_last() =~= Seq::empty());
        assert(text::filled(one) =~= Seq::empty());
    }
}

/// The letters and digits of some texts, one text after the other.
spec fn letters_in(v: Seq<Seq<char>>) -> Seq<char>
    decreases v.len(),
{
    if v.len() == 0 {
        Seq::empty()
    } else {
        letters_in(v.drop_last()) + letters(v.last())
    }
}

proof fn lemma_letters_joined(v: Seq<Seq<char>>)
    ensures
        letters(text::join(v, seq!['-'])) == letters_in(v),
    decreases v.len(),
{
    let test = |c: char| letter(c);
    reveal_with_fuel(Seq::filter, 2);
    if v.len() == 1 {
        assert(letters_in(v.drop_last()) =~= Seq::empty());
        assert(v[0] == v.last());
        assert(letters_in(v) =~= letters(v.last()));
    } else if v.len() > 1 {
        let front = v.drop_last();
        let head = text::join(front, seq!['-']);
        lemma_letters_joined(front);
        assert(seq!['-'].drop_last() =~= Seq::empty());
        assert(seq!['-'].filter(test) =~= Seq::empty());
        Seq::filter_distributes_over_add(head, seq!['-'], test);
        Seq::filter_distributes_over_add(head + seq!['-'], v.last(), test);
        assert(letters(head) + Seq::empty() =~= letters(head));
    } else {
        assert(letters(text::join(v, seq!['-'])) =~= Seq::empty());
    }
}

proof fn lemma_letters_filled(v: Seq<Seq<char>>)
    ensures
        letters_in(text::filled(v)) == letters_in(v),
    decreases v.len(),
{
    reveal(Seq::filter);
    if v.len() > 0 {
        let front = v.drop_last();
        lemma_letters_filled(front);
        if v.last().len() > 0 {
            let all = text::filled(v);
            assert(all =~= text::filled(front).push(v.last()));
            assert(all.drop_last() =~= text::filled(front));
        } else {
            assert(letters(v.last()) =~= Seq::empty());
            assert(letters_in(v) =~= letters_in(front));
        }
    }
}

proof fn lemma_letters_split(s: Seq<char>)
    ensures
        letters_in(text::split(s, text::Cut::At('-'))) == letters(s),
    decreases s.len(),
{
    let cut = text::Cut::At('-');
    reveal_with_fuel(Seq::filter, 2);
    let all = text::split(s, cut);
    if s.len() == 0 {
        assert(all =~= seq![Seq::<char>::empty()]);
        assert(all.drop_last() =~= Seq::empty());
        assert(letters_in(all.drop_last()) =~= Seq::empty());
        assert(all.last() =~= Seq::empty());
        assert(letters(all.last()) =~= Seq::empty());
        assert(letters_in(all) =~= Seq::empty());
        assert(letters(s) =~= Seq::empty());
    } else {
        let front = text::split(s.drop_last(), cut);
        text::lemma_split_some(s.drop_last(), cut);
        lemma_letters_split(s.drop_last());
        if s.last() == '-' {
            assert(all.drop_last() =~= front);
            assert(letters(Seq::<char>::empty()) =~= Seq::empty());
            assert(letters_in(all) =~= letters_in(front));
        } else {
            let longer = front.last().push(s.last());
            assert(all.drop_last() =~= front.drop_last());
            assert(longer.drop_last() =~= front.last());
            assert(letters_in(all) =~= letters_in(front.drop_last()) + letters(longer));
            if letter(s.last()) {
                assert(letters_in(all) =~= letters_in(front).push(s.last()));
            } else {
                assert(letters_in(all) =~= letters_in(front));
            }
        }
    }
}

proof fn lemma_letters_dashed(s: Seq<char>)
    ensures
        letters(dashed(s)) == letters(s),
    decreases s.len(),
{
    reveal(Seq::filter);
    if s.len() > 0 {
        lemma_letters_dashed(s.drop_last());
        assert(dashed(s).drop_last() =~= dashed(s.drop_last()));
    } else {
        assert(dashed(s) =~= s);
    }
}

/// A slug keeps all letters and digits of the text, in order.
pub proof fn law_slug_keeps_letters(s: Seq<char>)
    ensures
        letters(slug(s)) == letters(s),
{
    let parts = text::split(dashed(s), text::Cut::At('-'));
    reveal_strlit("-");
    assert("-"@ =~= seq!['-']);
    lemma_letters_joined(text::filled(parts));
    lemma_letters_filled(parts);
    lemma_letters_split(dashed(s));
    lemma_letters_dashed(s);
}

/// Making a slug of the slug of an ASCII text changes nothing.
pub proof fn law_slugify_is_idempotent(s: Seq<char>)
    requires
        all_ascii(s),
    ensures
        slug(lowered(slug(lowered(s)))) == slug(lowered(s)),
{
    let low = lowered(s);
    let t = slug(low);
    let parts = text::split(dashed(low), text::Cut::At('-'));
    let runs = text::filled(parts);
    let good = |c: char| c < '\u{80}' && text::lower_char(c) == c;
    reveal_strlit("-");
    assert("-"@ =~= seq!['-']);
    assert forall|i: int| 0 <= i < dashed(low).len() implies good(#[trigger] dashed(low)[i]) by {
        let c = s[i];
        assert(low[i] == text::lower_char(c));
        assert(text::lower_char(text::lower_char(c)) == text::lower_char(c));
    }
    text::lemma_split_parts(dashed(low), text::Cut::At('-'));
    text::lemma_filled(parts);
    assert forall|i: int, j: int| 0 <= i < runs.len() && 0 <= j < runs[i].len() implies good(
        #[trigger] runs[i][j],
    ) by {
        assert(parts.contains(runs[i]));
        let k = choose|k: int| 0 <= k < parts.len() && parts[k] == runs[i];
        assert(dashed(low).contains(parts[k][j]));
        let m = choose|m: int| 0 <= m < dashed(low).len() && dashed(low)[m] == parts[k][j];
        assert(good(dashed(low)[m]));
    }
    lemma_join_chars(runs, "-"@, good);
    assert forall|i: int| 0 <= i < t.len() implies #[trigger] t[i] < '\u{80}' && text::lower_char(
        t[i],
    ) == t[i] by {
        assert(good(text::join(runs, "-"@)[i]));
    }
    assert(text::lower(t) =~= t);
    law_slug(low);
}

/// A slug neither begins nor ends with a dash, and never holds two in a row.
pub proof fn law_slug_dashes(s: Seq<char>)
    ensures
        slug(s).len() > 0 ==> slug(s)[0] != '-' && slug(s).last() != '-',
        forall|i: int|
            0 <= i < slug(s).len() - 1 ==> !(#[trigger] slug(s)[i] == '-' && slug(s)[i + 1] == '-'),
{
    let runs = text::filled(text::split(dashed(s), text::Cut::At('-')));
    reveal_strlit("-");
    assert("-"@ =~= seq!['-']);
    lemma_runs(s);
    lemma_joined_runs(runs);
}

proof fn lemma_joined_runs(runs: Seq<Seq<char>>)
    requires
        forall|i: int| 0 <= i < runs.len() ==> (#[trigger] runs[i]).len() > 0,
        forall|i: int, j: int|
            0 <= i < runs.len() && 0 <= j < runs[i].len() ==> #[trigger] runs[i][j] != '-',
    ensures
        ({
            let t = text::join(runs, seq!['-']);
            &&& runs.len() > 0 ==> t.len() > 0
            &&& t.len() > 0 ==> t[0] != '-' && t.last() != '-'
            &&& forall|i: int| 0 <= i < t.len() - 1 ==> !(#[trigger] t[i] == '-' && t[i + 1] == '-')
        }),
    decreases runs.len(),
{
    let t = text::join(runs, seq!['-']);
    if runs.len() == 1 {
        assert(t == runs[0]);
        assert(runs[0][0] != '-');
        assert(runs[0][runs[0].len() - 1] != '-');
        assert forall|i: int| 0 <= i < t.len() - 1 implies !(#[trigger] t[i] == '-' && t[i + 1]
            == '-') by {
            assert(runs[0][i] != '-');
        }
    } else if runs.len() > 1 {
        let front = runs.drop_last();
        let last = runs.last();
        assert forall|i: int| 0 <= i < front.len() implies (#[trigger] front[i]).len() > 0 by {
            assert(runs[i].len() > 0);
        }
        assert forall|i: int, j: int| 0 <= i < front.len() && 0 <= j < front[i].len() implies #[trigger] front[i][j]
            != '-' by {
            assert(runs[i][j] != '-');
        }
        lemma_joined_runs(front);
        let head = text::join(front, seq!['-']);
        let n = head.len();
        assert(t =~= head + seq!['-'] + last);
        assert(t[0] == head[0]);
        assert(runs[runs.len() - 1][last.len() - 1] != '-');
        assert(t.last() == last.last());
        assert forall|i: int| 0 <= i < t.len() - 1 implies !(#[trigger] t[i] == '-' && t[i + 1]
            == '-') by {
            if i < n - 1 {
                assert(t[i] == head[i] && t[i + 1] == head[i + 1]);
            } else if i == n - 1 {
                assert(t[i] == head.last());
            } else if i == n {
                assert(t[i + 1] == last[0]);
                assert(runs[runs.len() - 1][0] != '-');
            } else {
                assert(t[i] == last[i - n - 1]);
                assert(runs[runs.len() - 1][i - n - 1] != '-');
            }
        }
    }
}

/// Building without a profile is building the project as it is written.
pub proof fn law_no_profile(p: ProjectV)
    ensures
        effective(p, None) == p,
{
}

/// A profile that overrides nothing changes nothing: at most an absent compile
/// section becomes one with nothing set.
pub proof fn law_empty_profile(p: ProjectV)
    ensures
        effective(p, Some(no_profile())) == (ProjectV {
            compile: Some(compile_or_none(p.compile)),
            ..p
        }),
{
}

proof fn lemma_inherited_keeps(
    p: ProjectV,
    m: Seq<(Seq<char>, ProfileV)>,
    extends: Seq<Seq<char>>,
    depth: nat,
)
    ensures
        ({
            let e = inherited(p, m, extends, depth);
            &&& e.name == p.name && e.language == p.language && e.siblings == p.siblings
            &&& e.profiles == p.profiles && e.output == p.output && e.version == p.version
            &&& e.license == p.license && e.authors == p.authors && e.description == p.description
        }),
    decreases depth, extends.len(),
{
    if extends.len() > 0 {
        lemma_inherited_keeps(p, m, extends.drop_last(), depth);
        let before = inherited(p, m, extends.drop_last(), depth);
        if let Some(g) = names::lookup(m, extends.last()) {
            if depth > 0 {
                lemma_inherited_keeps(before, m, g.extends, (depth - 1) as nat);
            }
        }
    }
}

/// A profile that extends nothing is folded over the project as it is written; one
/// that extends a single profile, which extends nothing itself, over the project
/// under that one.
pub proof fn law_extends(p: ProjectV, f: ProfileV, parent: Seq<char>)
    ensures
        f.extends.len() == 0 ==> base_for(p, f) == p,
        f.extends == seq![parent] && profile_of(p, parent) is Some && profile_of(
            p,
            parent,
        )->0.extends.len() == 0 ==> base_for(p, f) == effective(p, profile_of(p, parent)),
{
    if f.extends == seq![parent] {
        if let Some(g) = profile_of(p, parent) {
            let m = profile_table(p);
            names::lemma_position(m, parent);
            assert(f.extends.drop_last() =~= Seq::empty());
            assert(f.extends.last() == parent);
            assert(inherited(p, m, f.extends.drop_last(), m.len()) == p);
            assert(m.len() > 0);
            if g.extends.len() == 0 {
                assert(inherited(p, m, g.extends, m.len()) == p);
                assert(inherited(p, m, g.extends, (m.len() - 1) as nat) == p);
            }
        }
    }
}

/// A profile overrides a setting exactly where it sets it; where it does not, the
/// profiles it extends decide, and behind them the project. It never touches what
/// it cannot set.
pub proof fn law_profile_overrides(p: ProjectV, f: ProfileV)
    ensures
        ({
            let e = effective(p, Some(f));
            let under = base_for(p, f);
            let base = compile_or_none(under.compile);
            &&& e.name == p.name && e.language == p.language && e.siblings == p.siblings
            &&& e.profiles == p.profiles && e.output == p.output && e.version == p.version
            &&& e.license == p.license && e.authors == p.authors && e.description == p.description
            &&& e.ty == (match f.ty {
                Some(t) => t,
                None => under.ty,
            })
            &&& e.link == (match f.link {
                Some(l) => l,
                None => under.link,
            })
            &&& f.artifact is Some ==> e.artifact == f.artifact
            &&& f.artifact is None ==> e.artifact == under.artifact
            &&& f.generate_pc is Some ==> e.generate_pc == f.generate_pc
            &&& f.generate_pc is None ==> e.generate_pc == under.generate_pc
            &&& e.compile is Some
            &&& f.cc is Some ==> e.compile->0.cc == f.cc
            &&& f.cc is None ==> e.compile->0.cc == base.cc
            &&& f.linker is Some ==> e.compile->0.linker == f.linker
            &&& f.linker is None ==> e.compile->0.linker == base.linker
            &&& f.standard is Some ==> e.compile->0.standard == f.standard
            &&& f.standard is None ==> e.compile->0.standard == base.standard
            &&& f.arch is Some ==> e.compile->0.arch == f.arch
            &&& f.arch is None ==> e.compile->0.arch == base.arch
            &&& f.threads is Some ==> e.compile->0.threads == f.threads
            &&& f.threads is None ==> e.compile->0.threads == base.threads
        }),
{
    lemma_inherited_keeps(p, profile_table(p), f.extends, profile_table(p).len());
}

/// What a folded flag list holds: `replace` discards the base, anything else
/// keeps its flags and adds the new ones behind them.
pub proof fn law_folded(base: Option<FlagsV>, over: Option<FlagsV>)
    ensures
        over is None ==> folded(base, over) == base,
        over matches Some(FlagsV::Replace(v)) ==> flags_or_none(folded(base, over)) == text::filled(
            v,
        ),
        over matches Some(FlagsV::Append(v)) ==> flags_or_none(folded(base, over))
            == flags_or_none(base) + text::filled(v),
{
    if let Some(FlagsV::Append(v)) = over {
        let all = flags_or_none(base) + text::filled(v);
        text::lemma_filled(v);
        if let Some(b) = base {
            text::lemma_filled(written(b));
        }
        assert forall|i: int| 0 <= i < all.len() implies (#[trigger] all[i]).len() > 0 by {
            if i < flags_or_none(base).len() {
                assert(all[i] == flags_or_none(base)[i]);
            } else {
                assert(all[i] == text::filled(v)[i - flags_or_none(base).len()]);
            }
        }
        text::lemma_filled(all);
    }
}

/// A profile's dependencies and tests are merged over the project's with what it
/// inherits: an entry of the profile wins, every other name keeps what was there.
pub proof fn law_profile_tables(p: ProjectV, f: ProfileV, name: Seq<char>)
    requires
        f.dependencies matches Some(d) ==> names::distinct(d),
        f.tests matches Some(t) ==> names::distinct(t),
    ensures
        f.dependencies matches Some(d) ==> names::lookup(
            effective(p, Some(f)).dependencies->0,
            name,
        ) == (if names::holds(d, name) {
            names::lookup(d, name)
        } else if base_for(p, f).dependencies is Some {
            names::lookup(base_for(p, f).dependencies->0, name)
        } else {
            None
        }),
        f.tests matches Some(t) ==> names::lookup(effective(p, Some(f)).tests->0, name) == (
        if names::holds(t, name) {
            names::lookup(t, name)
        } else if base_for(p, f).tests is Some {
            names::lookup(base_for(p, f).tests->0, name)
        } else {
            None
        }),
{
    if let Some(d) = f.dependencies {
        let base = match base_for(p, f).dependencies {
            Some(b) => b,
            None => Seq::empty(),
        };
        names::law_merged(base, d, name);
    }
    if let Some(t) = f.tests {
        let base = match base_for(p, f).tests {
            Some(b) => b,
            None => Seq::empty(),
        };
        names::law_merged(base, t, name);
    }
}

/// A dependency is valid exactly when it is either remote or local, not both, and
/// has a transport only if it is remote.
pub proof fn law_valid_dependency(d: DependencyV)
    ensures
        fault(d) is None <==> ((d.remote is Some) != (d.local is Some)) && (d.local is Some
            ==> d.transport is None),
{
}

/// A project is valid exactly when each of its dependencies is.
pub proof fn law_valid_project(deps: Seq<(Seq<char>, DependencyV)>)
    ensures
        first_fault(deps) is None <==> (forall|i: int|
            0 <= i < deps.len() ==> fault((#[trigger] deps[i]).1) is None),
    decreases deps.len(),
{
    if deps.len() > 0 {
        let front = deps.drop_last();
        law_valid_project(front);
        if first_fault(deps) is None {
            assert forall|i: int| 0 <= i < deps.len() implies fault((#[trigger] deps[i]).1) is None by {
                if i < front.len() {
                    assert(front[i] == deps[i]);
                }
            }
        } else if first_fault(front) is Some {
            let i = choose|i: int| 0 <= i < front.len() && fault((#[trigger] front[i]).1) is Some;
            assert(deps[i] == front[i]);
        } else {
            assert(fault(deps[deps.len() - 1].1) is Some);
        }
    }
}

/// The flags that a list gives: its items that are not empty, whether it appends or
/// replaces.
pub open spec fn given(f: Option<FlagsV>) -> Seq<Seq<char>> {
    match f {
        Some(FlagsV::Append(v)) => v.filter(|t: Seq<char>| t.len() > 0),
        Some(FlagsV::Replace(v)) => v.filter(|t: Seq<char>| t.len() > 0),
        None => Seq::empty(),
    }
}

/// A list counts with all of its items but the empty ones, in order.
pub proof fn law_lists_give_their_items(f: Option<FlagsV>)
    ensures
        flags_or_none(f) == given(f),
        text::filled(flags_or_none(f)) == given(f),
        f matches Some(x) ==> flag_list(x) == given(f),
{
    if let Some(x) = f {
        text::lemma_filled(written(x));
        text::lemma_filled(flags_or_none(f));
    } else {
        text::lemma_filled(flags_or_none(f));
    }
}

/// A project's sources are below the roots it names, or below `src` where it names
/// none.
pub proof fn law_source_roots(src: Option<FlagsV>)
    ensures
        given(src).len() > 0 ==> roots(src) == given(src),
        given(src).len() == 0 ==> roots(src).len() == 1 && roots(src)[0] == "src"@,
{
    law_lists_give_their_items(src);
}

/// Whether a list is what a profile makes of a base: the base's items and then the
/// profile's where the profile appends, the profile's where it replaces, and the
/// base's where it says nothing.
pub open spec fn follows(
    list: Option<FlagsV>,
    base: Option<FlagsV>,
    over: Option<FlagsV>,
) -> bool {
    match over {
        Some(FlagsV::Append(v)) => given(list) == given(base) + v.filter(
            |t: Seq<char>| t.len() > 0,
        ),
        Some(FlagsV::Replace(v)) => given(list) == v.filter(|t: Seq<char>| t.len() > 0),
        None => given(list) == given(base),
    }
}

/// Folding gives a list that follows the base as the other list says.
pub proof fn law_folds(base: Option<FlagsV>, over: Option<FlagsV>)
    ensures
        follows(folded(base, over), base, over),
{
    law_folded(base, over);
    law_lists_give_their_items(base);
    law_lists_give_their_items(folded(base, over));
}

/// Each list of a project - includes, source roots, compile flags and link flags -
/// is folded with that of the profile, and with no other.
pub proof fn law_lists_under_a_profile(p: ProjectV, f: ProfileV)
    ensures
        ({
            let e = effective(p, Some(f)).compile;
            let b = base_for(p, f).compile;
            let includes = if b is Some {
                b->0.includes
            } else {
                None
            };
            let src = if b is Some {
                b->0.src
            } else {
                None
            };
            let c_flags = if b is Some {
                b->0.c_flags
            } else {
                None
            };
            let ld_flags = if b is Some {
                b->0.ld_flags
            } else {
                None
            };
            &&& e is Some
            &&& follows(e->0.includes, includes, f.includes)
            &&& follows(e->0.src, src, f.src)
            &&& follows(e->0.c_flags, c_flags, f.c_flags)
            &&& follows(e->0.ld_flags, ld_flags, f.ld_flags)
        }),
{
    let b = compile_or_none(base_for(p, f).compile);
    law_folds(b.includes, f.includes);
    law_folds(b.src, f.src);
    law_folds(b.c_flags, f.c_flags);
    law_folds(b.ld_flags, f.ld_flags);
}

/// The words a manifest is written with, in any case, and nothing else.
pub proof fn law_words_of_a_manifest(s: Seq<char>)
    ensures
        ({
            let t = text::lower(s);
            &&& language_of(s) == Some(Language::C) <==> t == "c"@
            &&& language_of(s) == Some(Language::Cpp) <==> t == "c++"@ || t == "cpp"@
            &&& project_type_of(s) == Some(ProjectType::Binary) <==> t == "binary"@
            &&& project_type_of(s) == Some(ProjectType::Library) <==> t == "library"@
            &&& linkage_of(s) == Some(Linkage::Dynamic) <==> t == "dynamic"@
            &&& linkage_of(s) == Some(Linkage::Static) <==> t == "static"@
            &&& transport_of(s) == Some(Transport::Ssh) <==> t == "ssh"@
            &&& transport_of(s) == Some(Transport::Https) <==> t == "https"@
            &&& arch_of(s) == Some(Arch::Native) <==> t == "native"@
            &&& arch_of(s) == Some(Arch::X86) <==> t == "x86"@ || t == "i686"@ || t == "i386"@ || t
                == "32"@
            &&& arch_of(s) == Some(Arch::X86_64) <==> t == "x64"@ || t == "x86_64"@ || t == "amd64"@
                || t == "64"@
            &&& arch_of(s) == Some(Arch::Arm64) <==> t == "arm64"@ || t == "aarch64"@
        }),
{
    lemma_words_differ();
}

proof fn lemma_words_differ()
    ensures
        "c"@.len() == 1 && "c++"@.len() == 3 && "cpp"@.len() == 3,
        "binary"@[0] == 'b' && "library"@[0] == 'l',
        "dynamic"@[0] == 'd' && "static"@[0] == 's',
        "ssh"@[0] == 's' && "https"@[0] == 'h',
        "native"@[0] == 'n',
        "x86"@.len() == 3 && "x86"@[0] == 'x' && "x86"@[1] == '8',
        "i686"@[0] == 'i' && "i386"@[0] == 'i' && "32"@[0] == '3',
        "x64"@.len() == 3 && "x64"@[0] == 'x' && "x64"@[1] == '6',
        "x86_64"@.len() == 6 && "x86_64"@[0] == 'x',
        "amd64"@[0] == 'a' && "amd64"@[1] == 'm',
        "64"@[0] == '6',
        "arm64"@[0] == 'a' && "arm64"@[1] == 'r',
        "aarch64"@[0] == 'a' && "aarch64"@[1] == 'a',
{
    reveal_strlit("c");
    reveal_strlit("c++");
    reveal_strlit("cpp");
    reveal_strlit("binary");
    reveal_strlit("library");
    reveal_strlit("dynamic");
    reveal_strlit("static");
    reveal_strlit("ssh");
    reveal_strlit("https");
    reveal_strlit("native");
    reveal_strlit("x86");
    reveal_strlit("i686");
    reveal_strlit("i386");
    reveal_strlit("32");
    reveal_strlit("x64");
    reveal_strlit("x86_64");
    reveal_strlit("amd64");
    reveal_strlit("64");
    reveal_strlit("arm64");
    reveal_strlit("aarch64");
}

/// The first token of a remote names its host, in any case, and the second is its
/// path.
pub proof fn law_hosts_of_a_manifest(host: Seq<char>, path: Seq<char>)
    ensures
        ({
            let t = text::lower(host);
            &&& t == "codeberg"@ ==> remote_of(host, path) == Some(RemoteV::Codeberg(path))
            &&& t == "github"@ ==> remote_of(host, path) == Some(RemoteV::GitHub(path))
            &&& t == "bitbucket"@ ==> remote_of(host, path) == Some(RemoteV::BitBucket(path))
            &&& t == "git"@ ==> remote_of(host, path) == Some(RemoteV::Git(path))
            &&& remote_of(host, path) is Some ==> t == "codeberg"@ || t == "github"@ || t
                == "bitbucket"@ || t == "git"@
        }),
{
    reveal_strlit("codeberg");
    reveal_strlit("github");
    reveal_strlit("bitbucket");
    reveal_strlit("git");
    assert("codeberg"@[0] == 'c');
    assert("github"@[0] == 'g' && "github"@.len() == 6);
    assert("bitbucket"@[0] == 'b');
    assert("git"@[0] == 'g' && "git"@.len() == 3);
}

/// A build system is named by its first token, in any case, and built for the second
/// where there is one; any other list is a command as it is written.
pub proof fn law_build_systems_of_a_manifest(v: Seq<Seq<char>>)
    requires
        v.len() > 0,
    ensures
        ({
            let t = text::lower(v[0]);
            let target = if v.len() > 1 {
                Some(v[1])
            } else {
                None
            };
            let b = build_system_of(v);
            &&& t == "conjure"@ ==> b == BuildSystemV::Conjure(target)
            &&& t == "make"@ ==> b == BuildSystemV::Make(target)
            &&& t == "cmake"@ ==> b == BuildSystemV::CMake(target)
            &&& t == "autotools"@ ==> b == BuildSystemV::Autotools(target)
            &&& t == "meson"@ ==> b == BuildSystemV::Meson(target)
            &&& t == "ninja"@ ==> b == BuildSystemV::Ninja(target)
            &&& t == "xmake"@ ==> b == BuildSystemV::Xmake(target)
            &&& t == "just"@ && v.len() > 1 && v[1].len() > 0 ==> b == BuildSystemV::Just(v[1])
            &&& t == "just"@ && v.len() == 1 ==> b == BuildSystemV::Just("build"@)
            &&& b matches BuildSystemV::Custom(cmd) ==> cmd == text::join(v, " "@)
            &&& !(b is Custom) ==> t == "conjure"@ || t == "make"@ || t == "cmake"@ || t
                == "autotools"@ || t == "meson"@ || t == "ninja"@ || t == "xmake"@ || t == "just"@
        }),
{
    reveal_strlit("conjure");
    reveal_strlit("make");
    reveal_strlit("cmake");
    reveal_strlit("autotools");
    reveal_strlit("meson");
    reveal_strlit("ninja");
    reveal_strlit("xmake");
    reveal_strlit("just");
    assert("conjure"@[0] == 'c' && "conjure"@[1] == 'o');
    assert("make"@[0] == 'm' && "make"@[1] == 'a');
    assert("cmake"@[0] == 'c' && "cmake"@[1] == 'm');
    assert("autotools"@[0] == 'a');
    assert("meson"@[0] == 'm' && "meson"@[1] == 'e');
    assert("ninja"@[0] == 'n');
    assert("xmake"@[0] == 'x');
    assert("just"@[0] == 'j');
}

/// A flag list keeps every token but a first one that says how it merges; only
/// `replace`, `set` and `=` discard the base.
pub proof fn law_flags_of_a_manifest(v: Seq<Seq<char>>)
    ensures
        v.len() == 0 ==> flags_of(v) == FlagsV::Append(v),
        v.len() > 0 ==> ({
            let t = text::lower(v[0]);
            let replaces = t == "replace"@ || t == "set"@ || t == "="@;
            let appends = t == "append"@ || t == "add"@ || t == "+"@;
            &&& replaces ==> flags_of(v) == FlagsV::Replace(v.skip(1))
            &&& appends ==> flags_of(v) == FlagsV::Append(v.skip(1))
            &&& !replaces && !appends ==> flags_of(v) == FlagsV::Append(v)
        }),
{
    reveal_strlit("append");
    reveal_strlit("add");
    reveal_strlit("+");
    reveal_strlit("replace");
    reveal_strlit("set");
    reveal_strlit("=");
    assert("append"@[0] == 'a' && "add"@[0] == 'a' && "+"@[0] == '+');
    assert("replace"@[0] == 'r' && "set"@[0] == 's' && "="@[0] == '=');
}

/// What is wrong with a project is what is wrong with the first of its dependencies
/// that is not valid, under that dependency's name; without dependencies nothing is.
pub proof fn law_first_fault_is_reported(p: ProjectV, k: int)
    requires
        p.dependencies is Some ==> 0 <= k < p.dependencies->0.len() && fault(
            p.dependencies->0[k].1,
        ) is Some && forall|i: int|
            0 <= i < k ==> fault((#[trigger] p.dependencies->0[i]).1) is None,
    ensures
        p.dependencies is None ==> project_fault(p) is None,
        p.dependencies is Some ==> project_fault(p) == Some(
            "dependency `"@ + p.dependencies->0[k].0 + "`: "@ + fault(p.dependencies->0[k].1)->0,
        ),
{
    if let Some(deps) = p.dependencies {
        let front = deps.take(k);
        let upto = deps.take(k + 1);
        assert forall|i: int| 0 <= i < front.len() implies fault((#[trigger] front[i]).1) is None by {
            assert(front[i] == deps[i]);
        }
        law_valid_project(front);
        assert(upto.drop_last() =~= front);
        assert(upto.last() == deps[k]);
        lemma_first_fault(deps, k + 1);
    }
}

/// A dependency that is wrong says how: both places, none, or a transport without a
/// remote.
pub proof fn law_faults_of_a_dependency(d: DependencyV)
    ensures
        d.remote is Some && d.local is Some ==> fault(d) == Some(
            "Remote and local cannot be used at the same time"@,
        ),
        d.remote is None && d.local is None ==> fault(d) == Some("Remote or local must be used"@),
        d.remote is None && d.local is Some && d.transport is Some ==> fault(d) == Some(
            "Transport cannot be used with local"@,
        ),
{
}

/// A build system has a name unless it is a command without a word; a command is
/// named by its first word.
pub proof fn law_names_of_build_systems()
    ensures
        forall|cmd: Seq<char>|
            nameable(BuildSystemV::Custom(cmd)) <==> #[trigger] text::white_words(cmd).len() > 0,
        forall|t: Option<Seq<char>>| #[trigger] nameable(BuildSystemV::Make(t)),
        forall|cmd: Seq<char>|
            text::white_words(cmd).len() > 0 ==> #[trigger] system_name(BuildSystemV::Custom(cmd))
                == "custom ("@ + text::white_words(cmd)[0] + ")"@,
        forall|t: Option<Seq<char>>|
            #[trigger] system_name(BuildSystemV::Make(t)) == "make"@,
        forall|t: Option<Seq<char>>|
            #[trigger] system_name(BuildSystemV::CMake(t)) == "cmake"@,
        forall|t: Option<Seq<char>>|
            #[trigger] system_name(BuildSystemV::Meson(t)) == "meson"@,
        forall|t: Option<Seq<char>>|
            #[trigger] system_name(BuildSystemV::Ninja(t)) == "ninja"@,
        forall|t: Option<Seq<char>>|
            #[trigger] system_name(BuildSystemV::Xmake(t)) == "xmake"@,
        forall|t: Option<Seq<char>>|
            #[trigger] system_name(BuildSystemV::Autotools(t)) == "autotools"@,
        forall|t: Option<Seq<char>>|
            #[trigger] system_name(BuildSystemV::Conjure(t)) == "conjure"@,
        forall|t: Seq<char>| #[trigger] system_name(BuildSystemV::Just(t)) == "just"@,
{
}

} // verus!
