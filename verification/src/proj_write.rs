//! Writing `conjure.kdl`: the tokens each type is written as, and the layout
//! fixups a generated file needs.
//!
//! A formatter can misplace the braces of a node, so generated files are passed
//! through [`fix_braces`] (balanced brace indentation, blank lines between
//! top-level sections). The enums render as bare tokens (`type binary`,
//! `link static`, `remote github "o/r"`), and reading the tokens back gives the
//! value they were written for.
use vstd::prelude::*;
use kdl::KdlDocument;
use crate::document;
use crate::document::Tree;
use crate::proj_parse;
use crate::proj_parse::{
    Arch, BuildSystem, BuildSystemV, Flags, FlagsV, Language, Linkage, ProjectType, Remote, RemoteV,
    Transport,
};
use crate::text;

verus! {

// ---------------------------------------------------------------------------
// Tokens
// ---------------------------------------------------------------------------

/// The token a language is written as.
pub open spec fn language_token(l: Language) -> Seq<char> {
    match l {
        Language::C => "c"@,
        Language::Cpp => "c++"@,
    }
}

/// The token a project type is written as.
pub open spec fn project_type_token(t: ProjectType) -> Seq<char> {
    match t {
        ProjectType::Binary => "binary"@,
        ProjectType::Library => "library"@,
    }
}

/// The token a linkage is written as.
pub open spec fn linkage_token(l: Linkage) -> Seq<char> {
    match l {
        Linkage::Dynamic => "dynamic"@,
        Linkage::Static => "static"@,
    }
}

/// The token an architecture is written as.
pub open spec fn arch_token(a: Arch) -> Seq<char> {
    match a {
        Arch::Native => "native"@,
        Arch::X86 => "x86"@,
        Arch::X86_64 => "x64"@,
        Arch::Arm64 => "arm64"@,
    }
}

/// The token a transport is written as.
pub open spec fn transport_token(t: Transport) -> Seq<char> {
    match t {
        Transport::Ssh => "ssh"@,
        Transport::Https => "https"@,
    }
}

/// The token the host of a remote is written as.
pub open spec fn host_token(r: RemoteV) -> Seq<char> {
    match r {
        RemoteV::Codeberg(_) => "codeberg"@,
        RemoteV::GitHub(_) => "github"@,
        RemoteV::BitBucket(_) => "bitbucket"@,
        RemoteV::Git(_) => "git"@,
    }
}

/// The path of a remote on its host.
pub open spec fn remote_path(r: RemoteV) -> Seq<char> {
    match r {
        RemoteV::Codeberg(p) => p,
        RemoteV::GitHub(p) => p,
        RemoteV::BitBucket(p) => p,
        RemoteV::Git(p) => p,
    }
}

/// The tokens of a build system with an optional target.
pub open spec fn with_target_of(system: Seq<char>, target: Option<Seq<char>>) -> Seq<Seq<char>> {
    match target {
        Some(t) => seq![system, t],
        None => seq![system],
    }
}

/// The tokens a build system is written as.
pub open spec fn build_system_tokens(b: BuildSystemV) -> Seq<Seq<char>> {
    match b {
        BuildSystemV::Custom(cmd) => seq![cmd],
        BuildSystemV::Conjure(t) => with_target_of("conjure"@, t),
        BuildSystemV::Make(t) => with_target_of("make"@, t),
        BuildSystemV::CMake(t) => with_target_of("cmake"@, t),
        BuildSystemV::Autotools(t) => with_target_of("autotools"@, t),
        BuildSystemV::Meson(t) => with_target_of("meson"@, t),
        BuildSystemV::Ninja(t) => with_target_of("ninja"@, t),
        BuildSystemV::Xmake(t) => with_target_of("xmake"@, t),
        BuildSystemV::Just(t) => with_target_of("just"@, Some(t)),
    }
}

/// The tokens a flag list is written as.
pub open spec fn flags_tokens(f: FlagsV) -> Seq<Seq<char>> {
    match f {
        FlagsV::Append(v) => v,
        FlagsV::Replace(v) => seq!["replace"@] + v,
    }
}

impl Language {
    /// The token the language is written as.
    pub fn token(&self) -> (out: &'static str)
        ensures
            out@ == language_token(*self),
    {
        match self {
            Language::C => "c",
            Language::Cpp => "c++",
        }
    }
}

impl ProjectType {
    /// The token the project type is written as.
    pub fn token(&self) -> (out: &'static str)
        ensures
            out@ == project_type_token(*self),
    {
        match self {
            ProjectType::Binary => "binary",
            ProjectType::Library => "library",
        }
    }
}

impl Linkage {
    /// The token the linkage is written as.
    pub fn token(&self) -> (out: &'static str)
        ensures
            out@ == linkage_token(*self),
    {
        match self {
            Linkage::Dynamic => "dynamic",
            Linkage::Static => "static",
        }
    }
}

impl Arch {
    /// The token the architecture is written as.
    pub fn token(&self) -> (out: &'static str)
        ensures
            out@ == arch_token(*self),
    {
        match self {
            Arch::Native => "native",
            Arch::X86 => "x86",
            Arch::X86_64 => "x64",
            Arch::Arm64 => "arm64",
        }
    }
}

impl Transport {
    /// The token the transport is written as.
    pub fn token(&self) -> (out: &'static str)
        ensures
            out@ == transport_token(*self),
    {
        match self {
            Transport::Ssh => "ssh",
            Transport::Https => "https",
        }
    }
}

impl Remote {
    /// The token the host is written as.
    pub fn host(&self) -> (out: &'static str)
        ensures
            out@ == host_token(self@),
    {
        match self {
            Remote::Codeberg(_) => "codeberg",
            Remote::GitHub(_) => "github",
            Remote::BitBucket(_) => "bitbucket",
            Remote::Git(_) => "git",
        }
    }

    /// The path on the host.
    pub fn path(&self) -> (out: &str)
        ensures
            out@ == remote_path(self@),
    {
        match self {
            Remote::Codeberg(p) => p.as_str(),
            Remote::GitHub(p) => p.as_str(),
            Remote::BitBucket(p) => p.as_str(),
            Remote::Git(p) => p.as_str(),
        }
    }

    /// The tokens the remote is written as: host, then path.
    pub fn tokens(&self) -> (out: Vec<String>)
        ensures
            text::texts(out@) == seq![host_token(self@), remote_path(self@)],
    {
        let mut out = text::one(self.host());
        text::push_text(&mut out, self.path());
        out
    }
}

fn with_target(system: &str, target: &Option<String>) -> (out: Vec<String>)
    ensures
        text::texts(out@) == with_target_of(system@, text::opt(*target)),
{
    let mut out = text::one(system);
    if let Some(t) = target {
        text::push_text(&mut out, t.as_str());
    }
    out
}

impl BuildSystem {
    /// The tokens the build system is written as.
    pub fn tokens(&self) -> (out: Vec<String>)
        ensures
            text::texts(out@) == build_system_tokens(self@),
    {
        match self {
            BuildSystem::Custom(cmd) => text::one(cmd.as_str()),
            BuildSystem::Conjure(t) => with_target("conjure", t),
            BuildSystem::Make(t) => with_target("make", t),
            BuildSystem::CMake(t) => with_target("cmake", t),
            BuildSystem::Autotools(t) => with_target("autotools", t),
            BuildSystem::Meson(t) => with_target("meson", t),
            BuildSystem::Ninja(t) => with_target("ninja", t),
            BuildSystem::Xmake(t) => with_target("xmake", t),
            BuildSystem::Just(t) => {
                let mut out = text::one("just");
                text::push_text(&mut out, t.as_str());
                out
            },
        }
    }
}

impl Flags {
    /// The tokens the flag list is written as.
    pub fn tokens(&self) -> (out: Vec<String>)
        ensures
            text::texts(out@) == flags_tokens(self@),
    {
        match self {
            Flags::Append(v) => text::copy_texts(v.as_slice()),
            Flags::Replace(v) => {
                let mut out = text::one("replace");
                text::extend_texts(&mut out, v.as_slice());
                out
            },
        }
    }
}

/// Whether a text holds no ASCII capital letter.
pub open spec fn is_low(s: Seq<char>) -> bool {
    forall|i: int| 0 <= i < s.len() ==> !('A' <= #[trigger] s[i] && s[i] <= 'Z')
}

/// A text without capital letters is its own lower case.
pub proof fn lemma_lower(s: Seq<char>)
    requires
        is_low(s),
    ensures
        text::lower(s) == s,
{
    assert(text::lower(s) =~= s);
}

/// A language, project type, linkage, architecture and transport is read back
/// from the token it is written as.
pub proof fn law_tokens_read_back(
    l: Language,
    t: ProjectType,
    k: Linkage,
    a: Arch,
    p: Transport,
)
    ensures
        proj_parse::language_of(language_token(l)) == Some(l),
        proj_parse::project_type_of(project_type_token(t)) == Some(t),
        proj_parse::linkage_of(linkage_token(k)) == Some(k),
        proj_parse::arch_of(arch_token(a)) == Some(a),
        proj_parse::transport_of(transport_token(p)) == Some(p),
{
    reveal_strlit("c");
    reveal_strlit("c++");
    reveal_strlit("binary");
    reveal_strlit("library");
    reveal_strlit("dynamic");
    reveal_strlit("static");
    reveal_strlit("native");
    reveal_strlit("x86");
    reveal_strlit("i686");
    reveal_strlit("i386");
    reveal_strlit("32");
    reveal_strlit("x64");
    reveal_strlit("x86_64");
    reveal_strlit("amd64");
    reveal_strlit("64");
    reveal_strlit("arm64");
    reveal_strlit("ssh");
    reveal_strlit("https");
    lemma_lower(language_token(l));
    lemma_lower(project_type_token(t));
    lemma_lower(linkage_token(k));
    lemma_lower(arch_token(a));
    lemma_lower(transport_token(p));
    assert("c"@.len() != "c++"@.len());
    assert("binary"@.len() != "library"@.len());
    assert("dynamic"@.len() != "static"@.len());
    assert("x64"@[1] == '6' && "x86"@[1] == '8');
    assert("arm64"@[1] == 'r' && "amd64"@[1] == 'm');
    assert("ssh"@.len() != "https"@.len());
}

/// A remote is read back from the tokens it is written as.
pub proof fn law_remote_reads_back(r: RemoteV)
    ensures
        proj_parse::remote_of(host_token(r), remote_path(r)) == Some(r),
{
    reveal_strlit("codeberg");
    reveal_strlit("github");
    reveal_strlit("bitbucket");
    reveal_strlit("git");
    lemma_lower(host_token(r));
    assert("codeberg"@.len() == 8 && "github"@.len() == 6 && "bitbucket"@.len() == 9
        && "git"@.len() == 3);
}

/// Whether a token names a build system.
pub open spec fn names_build_system(t: Seq<char>) -> bool {
    let l = text::lower(t);
    ||| l == "conjure"@
    ||| l == "make"@
    ||| l == "cmake"@
    ||| l == "autotools"@
    ||| l == "meson"@
    ||| l == "ninja"@
    ||| l == "xmake"@
    ||| l == "just"@
}

/// A build system is read back from the tokens it is written as, except a command
/// that is the bare name of a build system and a `just` without a recipe.
pub proof fn law_build_system_reads_back(b: BuildSystemV)
    requires
        b matches BuildSystemV::Custom(cmd) ==> !names_build_system(cmd),
        b matches BuildSystemV::Just(t) ==> t.len() > 0,
    ensures
        proj_parse::build_system_of(build_system_tokens(b)) == b,
{
    reveal_strlit("conjure");
    reveal_strlit("make");
    reveal_strlit("cmake");
    reveal_strlit("autotools");
    reveal_strlit("meson");
    reveal_strlit("ninja");
    reveal_strlit("xmake");
    reveal_strlit("just");
    let toks = build_system_tokens(b);
    if !(b is Custom) {
        lemma_lower(toks[0]);
    }
    assert("conjure"@.len() == 7);
    assert("autotools"@.len() == 9);
    assert("make"@[0] == 'm' && "just"@[0] == 'j' && "make"@.len() == 4 && "just"@.len() == 4);
    assert("cmake"@[0] == 'c' && "meson"@[0] == 'm' && "ninja"@[0] == 'n' && "xmake"@[0] == 'x');
    assert("cmake"@.len() == 5 && "meson"@.len() == 5 && "ninja"@.len() == 5 && "xmake"@.len()
        == 5);
}

/// Whether a token says how a flag list merges.
pub open spec fn says_how(t: Seq<char>) -> bool {
    let l = text::lower(t);
    ||| l == "append"@
    ||| l == "add"@
    ||| l == "+"@
    ||| l == "replace"@
    ||| l == "set"@
    ||| l == "="@
}

/// A flag list is read back from the tokens it is written as, except one to be
/// appended whose first flag is itself a word that says how a list merges.
pub proof fn law_flags_read_back(f: FlagsV)
    requires
        f matches FlagsV::Append(v) ==> v.len() == 0 || !says_how(v[0]),
    ensures
        proj_parse::flags_of(flags_tokens(f)) == f,
{
    reveal_strlit("append");
    reveal_strlit("add");
    reveal_strlit("+");
    reveal_strlit("replace");
    if let FlagsV::Replace(v) = f {
        lemma_lower("replace"@);
        assert("replace"@.len() == 7);
        assert((seq!["replace"@] + v).skip(1) =~= v);
        assert((seq!["replace"@] + v)[0] == "replace"@);
    }
}

// ---------------------------------------------------------------------------
// Layout
// ---------------------------------------------------------------------------

/// Whether a line is a comment.
pub open spec fn is_comment(line: Seq<char>) -> bool {
    text::begins(text::trim_start(line), "//"@)
}

/// Whether a line does nothing but close a block.
pub open spec fn closes(line: Seq<char>) -> bool {
    text::trim(line) == "}"@
}

/// Whether a line opens a block.
pub open spec fn opens(line: Seq<char>) -> bool {
    text::ends(text::trim_end(line), "{"@)
}

/// The indentation of a line.
pub open spec fn indent(line: Seq<char>) -> Seq<char> {
    line.take(text::lead_len(line) as int)
}

/// The first line at or after `i` that is not blank.
pub open spec fn next_inked(ls: Seq<Seq<char>>, i: int) -> Option<Seq<char>>
    decreases ls.len() - i,
{
    if i >= ls.len() || i < 0 {
        None
    } else if text::trim(ls[i]).len() > 0 {
        Some(ls[i])
    } else {
        next_inked(ls, i + 1)
    }
}

/// Whether a section that ends before line `i` is set off by a blank line: not
/// where the next thing is another closing brace.
pub open spec fn set_off(ls: Seq<Seq<char>>, i: int) -> bool {
    match next_inked(ls, i) {
        Some(line) => text::trim(line) != "}"@,
        None => true,
    }
}

/// The indentations of the blocks that are open after a line.
pub open spec fn open_after(line: Seq<char>, stack: Seq<Seq<char>>) -> Seq<Seq<char>> {
    if is_comment(line) {
        stack
    } else if closes(line) {
        if stack.len() > 0 {
            stack.drop_last()
        } else {
            stack
        }
    } else if opens(line) {
        stack.push(indent(line))
    } else {
        stack
    }
}

/// What line `i` becomes, inside the open blocks: a closing brace gets the
/// indentation of the line that opened its block, anything else stays as it is.
pub open spec fn laid_out(ls: Seq<Seq<char>>, i: int, stack: Seq<Seq<char>>) -> Seq<char> {
    let line = ls[i];
    if !is_comment(line) && closes(line) {
        (if stack.len() > 0 {
            stack.last()
        } else {
            Seq::empty()
        }) + "}\n"@ + (if open_after(line, stack).len() == 1 && set_off(ls, i + 1) {
            "\n"@
        } else {
            Seq::empty()
        })
    } else {
        line + "\n"@
    }
}

/// The lines from `i` on, laid out.
pub open spec fn fixed_from(ls: Seq<Seq<char>>, i: int, stack: Seq<Seq<char>>) -> Seq<char>
    decreases ls.len() - i,
{
    if i >= ls.len() || i < 0 {
        Seq::empty()
    } else {
        laid_out(ls, i, stack) + fixed_from(ls, i + 1, open_after(ls[i], stack))
    }
}

/// A text with its braces laid out.
pub open spec fn fixed(s: Seq<char>) -> Seq<char> {
    fixed_from(text::lines(s), 0, Seq::empty())
}

fn comment_line(line: &str) -> (res: bool)
    ensures
        res == is_comment(line@),
{
    let front = text::text_trim_start(line);
    text::starts_with(front.as_str(), "//")
}

fn next_sets_off(ls: &Vec<String>, from: usize) -> (res: bool)
    requires
        from <= ls@.len(),
    ensures
        res == set_off(text::texts(ls@), from as int),
{
    let ghost all = text::texts(ls@);
    let mut i: usize = from;
    while i < ls.len()
        invariant
            from <= i <= ls@.len(),
            all == text::texts(ls@),
            next_inked(all, from as int) == next_inked(all, i as int),
        decreases ls@.len() - i,
    {
        let body = text::text_trim(ls[i].as_str());
        proof {
            assert(all[i as int] == ls@[i as int]@);
        }
        if !body.as_str().is_empty() {
            return !text::same(body.as_str(), "}");
        }
        i += 1;
    }
    true
}

/// Re-indent KDL by tracking brace depth, and insert a blank line between
/// top-level sections.
///
/// Comment lines are emitted verbatim and never counted as braces: a comment may
/// hold brace examples, and treating those as real blocks would lose track of the
/// open ones and indent the file's final `}` wrongly.
pub fn fix_braces(s: &str) -> (out: String)
    ensures
        out@ == fixed(s@),
{
    let ls = text::text_lines(s);
    let ghost all = text::lines(s@);
    let n: usize = ls.len();
    let mut out = String::new();
    let mut stack = text::none();
    let mut i: usize = 0;
    proof {
        assert(Seq::<char>::empty() + fixed(s@) =~= fixed(s@));
    }
    while i < n
        invariant
            i <= n == ls@.len(),
            all == text::texts(ls@),
            all == text::lines(s@),
            out@ + fixed_from(all, i as int, text::texts(stack@)) == fixed(s@),
        decreases n - i,
    {
        let line = ls[i].as_str();
        let ghost before = text::texts(stack@);
        let ghost so_far = out@;
        proof {
            assert(all[i as int] == line@);
        }
        if comment_line(line) {
            out.append(line);
            out.append("\n");
        } else {
            let body = text::text_trim(line);
            if text::same(body.as_str(), "}") {
                match stack.pop() {
                    Some(lead) => {
                        proof {
                            assert(text::texts(stack@) =~= before.drop_last());
                            assert(before.last() == lead@);
                        }
                        out.append(lead.as_str());
                    },
                    None => {
                        proof {
                            assert(before.len() == 0);
                            assert(so_far + Seq::<char>::empty() =~= so_far);
                        }
                    },
                }
                out.append("}\n");
                if stack.len() == 1 && next_sets_off(&ls, i + 1) {
                    out.append("\n");
                }
            } else {
                let tail = text::text_trim_end(line);
                if text::ends_with(tail.as_str(), "{") {
                    let cs = text::chars_of(line);
                    let k: usize = text::lead_count(&cs);
                    let lead = text::slice_text(&cs, 0, k);
                    proof {
                        assert(cs@.subrange(0, k as int) =~= indent(line@));
                    }
                    text::push_text(&mut stack, lead.as_str());
                }
                out.append(line);
                out.append("\n");
            }
        }
        proof {
            assert(text::texts(stack@) == open_after(line@, before));
            assert(out@ =~= so_far + laid_out(all, i as int, before));
            assert(so_far + (laid_out(all, i as int, before) + fixed_from(
                all,
                i + 1,
                text::texts(stack@),
            )) =~= out@ + fixed_from(all, i + 1, text::texts(stack@)));
        }
        i += 1;
    }
    proof {
        assert(out@ + Seq::<char>::empty() =~= out@);
    }
    out
}

/// The characters of a text that are not white space.
pub open spec fn ink(s: Seq<char>) -> Seq<char> {
    s.filter(|c: char| !text::is_white(c))
}

/// The ink of texts in a row.
pub open spec fn ink_all(v: Seq<Seq<char>>) -> Seq<char>
    decreases v.len(),
{
    if v.len() == 0 {
        Seq::empty()
    } else {
        ink_all(v.drop_last()) + ink(v.last())
    }
}

/// The ink of two texts in a row is the ink of one and then of the other.
pub proof fn lemma_ink_add(a: Seq<char>, b: Seq<char>)
    ensures
        ink(a + b) == ink(a) + ink(b),
{
    Seq::filter_distributes_over_add(a, b, |c: char| !text::is_white(c));
}

/// White space holds no ink.
pub proof fn lemma_ink_white(s: Seq<char>)
    requires
        forall|i: int| 0 <= i < s.len() ==> text::is_white(#[trigger] s[i]),
    ensures
        ink(s) == Seq::<char>::empty(),
    decreases s.len(),
{
    reveal(Seq::filter);
    if s.len() > 0 {
        lemma_ink_white(s.drop_last());
    } else {
        assert(s =~= Seq::empty());
    }
}

proof fn lemma_ink_char(c: char)
    ensures
        ink(seq![c]) == (if text::is_white(c) {
            Seq::<char>::empty()
        } else {
            seq![c]
        }),
{
    reveal_with_fuel(Seq::filter, 2);
    assert(seq![c].drop_last() =~= Seq::empty());
    assert(seq![c].last() == c);
}

proof fn lemma_ink_of_split(s: Seq<char>, c: char)
    requires
        text::is_white(c),
    ensures
        ink_all(text::split(s, text::Cut::At(c))) == ink(s),
    decreases s.len(),
{
    let all = text::split(s, text::Cut::At(c));
    if s.len() == 0 {
        reveal(Seq::filter);
        assert(s =~= Seq::empty());
        assert(all.drop_last() =~= Seq::empty());
        assert(ink_all(Seq::empty()) =~= Seq::<char>::empty());
        assert(all.last() =~= s);
        assert(ink_all(all) =~= ink(s));
    } else {
        let front = text::split(s.drop_last(), text::Cut::At(c));
        text::lemma_split_some(s.drop_last(), text::Cut::At(c));
        lemma_ink_of_split(s.drop_last(), c);
        assert(s =~= s.drop_last() + seq![s.last()]);
        lemma_ink_add(s.drop_last(), seq![s.last()]);
        lemma_ink_char(s.last());
        if s.last() == c {
            reveal(Seq::filter);
            assert(all.drop_last() =~= front);
            assert(ink(Seq::<char>::empty()) =~= Seq::empty());
            assert(ink_all(all) =~= ink(s));
        } else {
            let grown = front.last().push(s.last());
            assert(all.drop_last() =~= front.drop_last());
            assert(grown =~= front.last() + seq![s.last()]);
            lemma_ink_add(front.last(), seq![s.last()]);
            assert(ink_all(all) =~= ink_all(front) + ink(seq![s.last()]));
        }
    }
}

proof fn lemma_ink_strip_cr(s: Seq<char>)
    ensures
        ink(text::strip_cr(s)) == ink(s),
{
    if s.len() > 0 && s.last() == '\r' {
        reveal(Seq::filter);
    }
}

proof fn lemma_ink_of_stripped(v: Seq<Seq<char>>)
    ensures
        ink_all(v.map_values(|p: Seq<char>| text::strip_cr(p))) == ink_all(v),
    decreases v.len(),
{
    let w = v.map_values(|p: Seq<char>| text::strip_cr(p));
    if v.len() > 0 {
        lemma_ink_of_stripped(v.drop_last());
        lemma_ink_strip_cr(v.last());
        assert(w.drop_last() =~= v.drop_last().map_values(|p: Seq<char>| text::strip_cr(p)));
    }
}

/// The lines of a text hold all of its ink.
pub proof fn lemma_ink_of_lines(s: Seq<char>)
    ensures
        ink_all(text::lines(s)) == ink(s),
{
    let parts = text::split(s, text::Cut::At('\n'));
    let ended = parts.drop_last().map_values(|p: Seq<char>| text::strip_cr(p));
    text::lemma_split_some(s, text::Cut::At('\n'));
    lemma_ink_of_split(s, '\n');
    lemma_ink_of_stripped(parts.drop_last());
    if parts.last().len() == 0 {
        reveal(Seq::filter);
        assert(ink(parts.last()) =~= Seq::empty());
        assert(ink_all(parts) =~= ink_all(parts.drop_last()));
    } else {
        assert(text::lines(s).drop_last() =~= ended);
    }
}

proof fn lemma_ink_trim_start(s: Seq<char>)
    ensures
        ink(text::trim_start(s)) == ink(s),
        forall|i: int| 0 <= i < text::lead_len(s) ==> text::is_white(#[trigger] s[i]),
    decreases s.len(),
{
    if s.len() > 0 && text::is_white(s[0]) {
        let rest = s.skip(1);
        lemma_ink_trim_start(rest);
        text::lemma_trim_start(s);
        text::lemma_trim_start(rest);
        assert(s =~= seq![s[0]] + rest);
        lemma_ink_add(seq![s[0]], rest);
        lemma_ink_char(s[0]);
        assert(ink(s) =~= ink(rest));
        assert forall|i: int| 0 <= i < text::lead_len(s) implies text::is_white(#[trigger] s[i]) by {
            if i > 0 {
                assert(s[i] == rest[i - 1]);
            }
        }
    }
}

proof fn lemma_ink_trim_end(s: Seq<char>)
    ensures
        ink(text::trim_end(s)) == ink(s),
    decreases s.len(),
{
    if s.len() > 0 && text::is_white(s.last()) {
        lemma_ink_trim_end(s.drop_last());
        reveal(Seq::filter);
    }
}

/// Whether every indentation is white space.
spec fn all_blank(stack: Seq<Seq<char>>) -> bool {
    forall|i: int| 0 <= i < stack.len() ==> ink(#[trigger] stack[i]) == Seq::<char>::empty()
}

proof fn lemma_ink_laid_out(ls: Seq<Seq<char>>, i: int, stack: Seq<Seq<char>>)
    requires
        0 <= i < ls.len(),
        all_blank(stack),
    ensures
        ink(laid_out(ls, i, stack)) == ink(ls[i]),
        all_blank(open_after(ls[i], stack)),
{
    let line = ls[i];
    reveal_strlit("}\n");
    reveal_strlit("}");
    reveal_strlit("\n");
    assert("\n"@ =~= seq!['\n']);
    assert("}"@ =~= seq!['}']);
    assert("}\n"@ =~= "}"@ + "\n"@);
    lemma_ink_char('\n');
    lemma_ink_trim_start(line);
    lemma_ink_add("}"@, "\n"@);
    if !is_comment(line) && closes(line) {
        lemma_ink_trim_end(text::trim_start(line));
        let lead = if stack.len() > 0 {
            stack.last()
        } else {
            Seq::empty()
        };
        let gap = if open_after(line, stack).len() == 1 && set_off(ls, i + 1) {
            "\n"@
        } else {
            Seq::empty()
        };
        assert(ink(lead) =~= Seq::empty()) by {
            reveal(Seq::filter);
            if stack.len() > 0 {
                assert(ink(stack[stack.len() - 1]) == Seq::<char>::empty());
            }
        }
        assert(ink(gap) =~= Seq::empty()) by {
            reveal(Seq::filter);
        }
        lemma_ink_add(lead + "}\n"@, gap);
        lemma_ink_add(lead, "}\n"@);
        assert(ink(laid_out(ls, i, stack)) =~= ink("}"@));
    } else {
        lemma_ink_add(line, "\n"@);
        assert(ink(line + "\n"@) =~= ink(line));
        if !is_comment(line) && opens(line) {
            text::lemma_trim_start(line);
            assert forall|k: int| 0 <= k < indent(line).len() implies text::is_white(
                #[trigger] indent(line)[k],
            ) by {
                assert(indent(line)[k] == line[k]);
            }
            lemma_ink_white(indent(line));
        }
    }
}

proof fn lemma_ink_fixed_from(ls: Seq<Seq<char>>, i: int, stack: Seq<Seq<char>>)
    requires
        0 <= i <= ls.len(),
        all_blank(stack),
    ensures
        ink_all(ls.take(i)) + ink(fixed_from(ls, i, stack)) == ink_all(ls),
    decreases ls.len() - i,
{
    if i < ls.len() {
        lemma_ink_laid_out(ls, i, stack);
        let rest = fixed_from(ls, i + 1, open_after(ls[i], stack));
        lemma_ink_add(laid_out(ls, i, stack), rest);
        lemma_ink_fixed_from(ls, i + 1, open_after(ls[i], stack));
        assert(ls.take(i + 1).drop_last() =~= ls.take(i));
        assert(ink_all(ls.take(i)) + (ink(ls[i]) + ink(rest)) =~= ink_all(ls.take(i + 1)) + ink(
            rest,
        ));
    } else {
        reveal(Seq::filter);
        assert(ls.take(i) =~= ls);
        assert(ink(fixed_from(ls, i, stack)) =~= Seq::empty());
        assert(ink_all(ls) + Seq::empty() =~= ink_all(ls));
    }
}

/// Laying out the braces of a file changes nothing but white space.
pub proof fn law_fix_braces_keeps_ink(s: Seq<char>)
    ensures
        ink(fixed(s)) == ink(s),
{
    let ls = text::lines(s);
    lemma_ink_of_lines(s);
    lemma_ink_fixed_from(ls, 0, Seq::empty());
    assert(ls.take(0) =~= Seq::empty());
    assert(Seq::<char>::empty() + ink(fixed(s)) =~= ink(fixed(s)));
}

/// A comment is emitted verbatim, and opens and closes no block whatever braces it
/// holds.
pub proof fn law_comments_are_verbatim(ls: Seq<Seq<char>>, i: int, stack: Seq<Seq<char>>)
    requires
        0 <= i < ls.len(),
        is_comment(ls[i]),
    ensures
        fixed_from(ls, i, stack) == ls[i] + "\n"@ + fixed_from(ls, i + 1, stack),
{
}

/// A brace that closes a block stands where the line that opened it starts: the
/// block's lines `open + 1 .. close` leave the open blocks as they found them.
pub proof fn law_braces_line_up(
    ls: Seq<Seq<char>>,
    open: int,
    close: int,
    stack: Seq<Seq<char>>,
)
    requires
        0 <= open < close < ls.len(),
        !is_comment(ls[open]) && !closes(ls[open]) && opens(ls[open]),
        !is_comment(ls[close]) && closes(ls[close]),
        open_between(ls, open + 1, close, open_after(ls[open], stack)) == open_after(
            ls[open],
            stack,
        ),
    ensures
        text::begins(
            laid_out(ls, close, open_between(ls, open, close, stack)),
            indent(ls[open]) + "}\n"@,
        ),
        open_between(ls, open, close + 1, stack) == stack,
{
    let inside = open_after(ls[open], stack);
    assert(inside == stack.push(indent(ls[open])));
    assert(open_between(ls, open, close, stack) == inside);
    lemma_open_between(ls, open, close, stack);
    let line = laid_out(ls, close, inside);
    let want = indent(ls[open]) + "}\n"@;
    assert(line.take(want.len() as int) =~= want);
    assert(inside.drop_last() =~= stack);
}

/// The open blocks after the lines `from .. to`.
pub open spec fn open_between(ls: Seq<Seq<char>>, from: int, to: int, stack: Seq<Seq<char>>) -> Seq<
    Seq<char>,
>
    decreases to - from,
{
    if from >= to {
        stack
    } else {
        open_between(ls, from + 1, to, open_after(ls[from], stack))
    }
}

proof fn lemma_open_between(ls: Seq<Seq<char>>, from: int, to: int, stack: Seq<Seq<char>>)
    requires
        from <= to,
    ensures
        open_between(ls, from, to + 1, stack) == open_after(
            ls[to],
            open_between(ls, from, to, stack),
        ),
    decreases to - from,
{
    if from < to {
        lemma_open_between(ls, from + 1, to, open_after(ls[from], stack));
    } else {
        assert(open_between(ls, from + 1, to + 1, open_after(ls[from], stack)) == open_after(
            ls[from],
            stack,
        ));
    }
}

// ---------------------------------------------------------------------------
// Section comments
// ---------------------------------------------------------------------------

/// A list without the blank texts at its end.
pub open spec fn without_blank_tail(v: Seq<Seq<char>>) -> Seq<Seq<char>>
    decreases v.len(),
{
    if v.len() > 0 && text::trim(v.last()).len() == 0 {
        without_blank_tail(v.drop_last())
    } else {
        v
    }
}

/// The lines of a comment, each behind `// `.
pub open spec fn commented(comment: Seq<char>) -> Seq<Seq<char>> {
    text::lines(comment).map_values(|l: Seq<char>| "// "@ + l)
}

/// What goes before a section: an empty line, then the comment.
pub open spec fn leading_of(comment: Seq<char>) -> Seq<char> {
    text::join(without_blank_tail(seq![Seq::<char>::empty()] + commented(comment)), "\n"@) + "\n"@
}

/// What goes before a section: an empty line, then the comment.
pub fn leading_text(comment: &str) -> (out: String)
    ensures
        out@ == leading_of(comment@),
{
    let ls = text::text_lines(comment);
    let ghost want = seq![Seq::<char>::empty()] + commented(comment@);
    let mut out = text::one("");
    proof {
        reveal_strlit("");
        assert(""@ =~= Seq::<char>::empty());
    }
    let mut i: usize = 0;
    proof {
        assert(want.take(1) =~= seq![Seq::<char>::empty()]);
    }
    while i < ls.len()
        invariant
            i <= ls@.len(),
            text::texts(ls@) == text::lines(comment@),
            want == seq![Seq::<char>::empty()] + commented(comment@),
            text::texts(out@) == want.take(i + 1),
        decreases ls@.len() - i,
    {
        let line = text::cat("// ", ls[i].as_str());
        text::push_text(&mut out, line.as_str());
        proof {
            assert(text::lines(comment@)[i as int] == ls@[i as int]@);
            assert(want[i + 1] == line@);
            assert(want.take(i + 2) =~= want.take(i + 1).push(line@));
        }
        i += 1;
    }
    proof {
        assert(text::texts(ls@).len() == ls@.len());
        assert(want.take(i + 1) =~= want);
    }
    let mut n: usize = out.len();
    proof {
        assert(text::texts(out@).take(n as int) =~= want);
    }
    let ghost all = text::texts(out@);
    while n > 0 && is_blank(out[n - 1].as_str())
        invariant
            n <= out@.len(),
            all == text::texts(out@),
            without_blank_tail(all) == without_blank_tail(all.take(n as int)),
        decreases n,
    {
        proof {
            assert(all.take(n as int).last() == out@[n - 1]@);
            assert(all.take(n as int).drop_last() =~= all.take(n - 1));
        }
        n -= 1;
    }
    proof {
        if n > 0 {
            assert(all.take(n as int).last() == out@[n - 1]@);
        }
    }
    out.truncate(n);
    proof {
        assert(text::texts(out@) =~= all.take(n as int));
    }
    let body = text::join_texts(out.as_slice(), "\n");
    text::cat(body.as_str(), "\n")
}

fn is_blank(s: &str) -> (res: bool)
    ensures
        res == (text::trim(s@).len() == 0),
{
    let body = text::text_trim(s);
    body.as_str().is_empty()
}

/// What the `compile` section is for, with an example.
pub const COMPILE_COMMENT: &'static str =
    "compiler & linker settings. `cc` defaults to `cc`; `linker` defaults to\nthe compiler driver, so a bare `cc: clang++` links with clang++ too.\n  standard c11                 // c11 | gnu11 | c17 | c++17 | gnu++20 | ...\n  cc \"ccache gcc\"              // compiler, may carry prefix args\n  linker \"gcc -fuse-ld=mold\"   // linker; gcc/clang/tcc/zig all work\n  src \"src\" \"lib/x\"            // source roots (dirs or files); default [\"src\"]\n  include \"include\" \"third_party\"\n  c_flags -Wall -Wextra        // `replace` prefix overrides base flags\n  ld_flags -flto               // same rules as c_flags\n  threads 8                    // compile/dep parallelism; default = cpu count";

/// What the `profiles` section is for, with an example.
pub const PROFILES_COMMENT: &'static str =
    "build profiles: `conjure as <name> -- <subcommand>`, e.g. `conjure as release -- build`\n  profile_name {\n    c_flags replace \"-g\" \"-O0\" // `replace` overrides base, `append` (default) adds\n    ld_flags -flto\n    tests { }                // profile-specific tests, merged over the top-level set\n  }";

/// What the `siblings` section is for, with an example.
pub const SIBLINGS_COMMENT: &'static str =
    "co-built sibling conjure projects; each name maps to a directory holding\nits own conjure.kdl, built in the same `conjure build` invocation\n  sibling_name \"libs/sibling_name\"";

/// What the `tests` section is for, with an example.
pub const TESTS_COMMENT: &'static str =
    "test targets: each name compiles to a binary that links the project's\nlibrary, so the project must be `type library`; built by `conjure test` and\nnever run by conjure\n  test_name { src \"tests/test_name.c\" }";

/// What the `dependencies` section is for, with an example.
pub const DEPENDENCIES_COMMENT: &'static str =
    "external dependencies; manage with `conjure add` / `conjure rm`, pin with\n`conjure lock`/`update`\n  dep_name {\n    remote github \"owner/repo\"  // codeberg | github | bitbucket | git\n    transport ssh               // ssh (default) | https\n    local \"../path/to/dep\"      // instead of remote\n    build cmake libname         // make | cmake | meson | ninja | xmake | autotools | just | conjure, or a raw command\n    include \"include\"\n    pkg_config \"pkg\"\n    ref \"v1.0.0\"\n  }";

/// A section with its comment before it, where it is there. It is given a block
/// if it has none, so that there is something to fill in.
pub open spec fn annotate_one(c: Seq<Tree>, name: Seq<char>, comment: Seq<char>) -> Seq<Tree> {
    let i = document::find_node(c, name);
    if document::has_node(c, name) {
        c.update(
            i,
            Tree {
                lead: leading_of(comment),
                children: Some(document::kids(c[i])),
                ..c[i]
            },
        )
    } else {
        c
    }
}

/// The sections of a project, each with its comment before it.
pub open spec fn annotate_all(c: Seq<Tree>) -> Seq<Tree> {
    let c = annotate_one(c, "compile"@, COMPILE_COMMENT@);
    let c = annotate_one(c, "profiles"@, PROFILES_COMMENT@);
    let c = annotate_one(c, "siblings"@, SIBLINGS_COMMENT@);
    let c = annotate_one(c, "tests"@, TESTS_COMMENT@);
    annotate_one(c, "dependencies"@, DEPENDENCIES_COMMENT@)
}

/// A manifest with its sections annotated.
pub open spec fn annotated(ts: Seq<Tree>) -> Seq<Tree> {
    let i = document::find_node(ts, "project"@);
    if document::has_node(ts, "project"@) && ts[i].children is Some {
        ts.update(i, Tree { children: Some(annotate_all(ts[i].children->0)), ..ts[i] })
    } else {
        ts
    }
}

fn annotate_section(children: &mut KdlDocument, name: &str, comment: &str)
    ensures
        document::tree(*final(children)) == annotate_one(
            document::tree(*old(children)),
            name@,
            comment@,
        ),
{
    let i: usize = document::position_of_node(children, name);
    if i < document::node_count(children) {
        let mut node = document::node_at(children, i);
        let block = match document::children_of(&node) {
            Some(block) => block,
            None => document::new_document(),
        };
        document::set_children(&mut node, block);
        let lead = leading_text(comment);
        document::set_leading(&mut node, lead.as_str());
        document::set_node(children, i, node);
    }
}

/// Put the example comments before the sections of a manifest.
pub fn annotate(doc: &mut KdlDocument)
    ensures
        document::tree(*final(doc)) == annotated(document::tree(*old(doc))),
{
    let i: usize = document::position_of_node(doc, "project");
    if i < document::node_count(doc) {
        let mut node = document::node_at(doc, i);
        if let Some(children) = document::children_of(&node) {
            let mut children = children;
            annotate_section(&mut children, "compile", COMPILE_COMMENT);
            annotate_section(&mut children, "profiles", PROFILES_COMMENT);
            annotate_section(&mut children, "siblings", SIBLINGS_COMMENT);
            annotate_section(&mut children, "tests", TESTS_COMMENT);
            annotate_section(&mut children, "dependencies", DEPENDENCIES_COMMENT);
            document::set_children(&mut node, children);
            document::set_node(doc, i, node);
        }
    }
}

/// The text of a new manifest: annotated, formatted, with its braces laid out.
pub fn manifest_text(doc: KdlDocument) -> (out: String)
    ensures
        exists|d: KdlDocument| #[trigger]
            document::tree(d) == annotated(document::tree(doc)) && out@ == document::laid_out(d),
{
    let mut doc = doc;
    annotate(&mut doc);
    document::document_text(doc)
}

/// The tokens that settings are written as.
pub proof fn law_tokens(path: Seq<char>, target: Seq<char>)
    ensures
        language_token(Language::C) == "c"@ && language_token(Language::Cpp) == "c++"@,
        project_type_token(ProjectType::Binary) == "binary"@,
        project_type_token(ProjectType::Library) == "library"@,
        linkage_token(Linkage::Dynamic) == "dynamic"@ && linkage_token(Linkage::Static) == "static"@,
        arch_token(Arch::Native) == "native"@ && arch_token(Arch::X86) == "x86"@,
        arch_token(Arch::X86_64) == "x64"@ && arch_token(Arch::Arm64) == "arm64"@,
        transport_token(Transport::Ssh) == "ssh"@ && transport_token(Transport::Https) == "https"@,
        host_token(RemoteV::Codeberg(path)) == "codeberg"@,
        host_token(RemoteV::GitHub(path)) == "github"@,
        host_token(RemoteV::BitBucket(path)) == "bitbucket"@,
        host_token(RemoteV::Git(path)) == "git"@,
        remote_path(RemoteV::Codeberg(path)) == path && remote_path(RemoteV::GitHub(path)) == path,
        remote_path(RemoteV::BitBucket(path)) == path && remote_path(RemoteV::Git(path)) == path,
        build_system_tokens(BuildSystemV::Make(None)) == seq!["make"@],
        build_system_tokens(BuildSystemV::CMake(Some(target))) == seq!["cmake"@, target],
        build_system_tokens(BuildSystemV::Just(target)) == seq!["just"@, target],
        build_system_tokens(BuildSystemV::Custom(target)) == seq![target],
{
}

/// What a line of KDL does to the open blocks goes by its text without the white
/// space around it: a brace alone closes one, a line that ends in a brace opens one,
/// and a comment does neither.
pub proof fn law_lines_that_matter(lead: Seq<char>, inner: Seq<char>, tail: Seq<char>)
    requires
        text::all_white(lead),
        text::all_white(tail),
    ensures
        closes(lead + "}"@ + tail),
        is_comment(lead + ("//"@ + inner)),
        inner.len() > 0 && !text::is_white(inner[0]) && !text::is_white(inner.last()) && inner
            != "}"@ ==> !closes(lead + inner + tail),
        opens(lead + inner + "{"@),
        inner.len() > 0 && inner.last() != '{' && !text::is_white(inner.last()) ==> !opens(
            lead + inner,
        ),
{
    reveal_strlit("}");
    reveal_strlit("//");
    reveal_strlit("{");
    assert("}"@ =~= seq!['}']);
    text::law_trim(lead, "}"@, tail);
    let c = "//"@ + inner;
    lemma_trim_start_behind(lead, c);
    text::law_begins_and_ends("//"@, inner);
    if inner.len() > 0 && !text::is_white(inner[0]) && !text::is_white(inner.last()) {
        text::law_trim(lead, inner, tail);
    }
    let o = lead + inner + "{"@;
    assert(o.last() == '{');
    assert(text::trim_end(o) == o);
    text::law_begins_and_ends("{"@, lead + inner);
    if inner.len() > 0 && inner.last() != '{' && !text::is_white(inner.last()) {
        let s = lead + inner;
        assert(s.last() == inner.last());
        assert(text::trim_end(s) == s);
        if text::ends(s, "{"@) {
            assert(s.skip(s.len() - 1)[0] == s.last());
        }
    }
}

proof fn lemma_trim_start_behind(lead: Seq<char>, s: Seq<char>)
    requires
        text::all_white(lead),
        s.len() > 0,
        !text::is_white(s[0]),
    ensures
        text::trim_start(lead + s) == s,
    decreases lead.len(),
{
    if lead.len() > 0 {
        let rest = lead.skip(1);
        assert forall|i: int| 0 <= i < rest.len() implies text::is_white(#[trigger] rest[i]) by {
            assert(text::is_white(lead[i + 1]));
        }
        lemma_trim_start_behind(rest, s);
        assert(text::is_white(lead[0]));
        assert((lead + s)[0] == lead[0]);
        assert((lead + s).skip(1) =~= rest + s);
    } else {
        assert(lead + s =~= s);
    }
}

/// Every line that does not close a block is written as it is, and a line follows
/// another in the order in which they came.
pub proof fn law_lines_are_kept(ls: Seq<Seq<char>>, i: int, stack: Seq<Seq<char>>)
    requires
        0 <= i < ls.len(),
    ensures
        is_comment(ls[i]) || !closes(ls[i]) ==> laid_out(ls, i, stack) == ls[i] + "\n"@,
        !is_comment(ls[i]) && closes(ls[i]) && stack.len() > 0 ==> text::begins(
            laid_out(ls, i, stack),
            stack.last() + "}\n"@,
        ),
        fixed_from(ls, i, stack) == laid_out(ls, i, stack) + fixed_from(
            ls,
            i + 1,
            open_after(ls[i], stack),
        ),
{
    if !is_comment(ls[i]) && closes(ls[i]) && stack.len() > 0 {
        let want = stack.last() + "}\n"@;
        let all = laid_out(ls, i, stack);
        assert(all.take(want.len() as int) =~= want);
    }
}

/// A section that is closed inside the outermost block is set off from the next one
/// by an empty line, and no other brace is.
pub proof fn law_sections_are_set_off(ls: Seq<Seq<char>>, i: int, stack: Seq<Seq<char>>)
    requires
        0 <= i < ls.len(),
        !is_comment(ls[i]) && closes(ls[i]),
        stack.len() > 0,
    ensures
        stack.len() != 2 ==> laid_out(ls, i, stack) == stack.last() + "}\n"@,
        stack.len() == 2 && i + 1 < ls.len() && text::trim(ls[i + 1]).len() > 0 && !closes(
            ls[i + 1],
        ) ==> laid_out(ls, i, stack) == stack.last() + "}\n"@ + "\n"@,
        stack.len() == 2 && i + 1 < ls.len() && closes(ls[i + 1]) ==> laid_out(ls, i, stack)
            == stack.last() + "}\n"@,
{
    reveal_strlit("}");
    let base = stack.last() + "}\n"@;
    assert(base + Seq::<char>::empty() =~= base);
    assert("}"@.len() == 1);
}

/// Annotating a manifest puts a comment before the sections that have one, and
/// changes no node's name, entries or children.
pub proof fn law_annotating_changes_no_node(c: Seq<Tree>, name: Seq<char>, comment: Seq<char>, k: int)
    requires
        0 <= k < c.len(),
    ensures
        ({
            let a = annotate_one(c, name, comment);
            &&& a.len() == c.len()
            &&& a[k].name == c[k].name && a[k].entries == c[k].entries
            &&& document::kids(a[k]) == document::kids(c[k])
            &&& c[k].name != name ==> a[k] == c[k]
            &&& document::find_node(c, name) == k && c[k].name == name ==> a[k].lead
                == leading_of(comment)
        }),
{
    document::lemma_find_node(c, name);
}

/// A comment is written line by line, each behind two slashes.
pub proof fn law_comments_are_written_line_by_line(ls: Seq<Seq<char>>, i: int)
    requires
        forall|i: int, j: int|
            0 <= i < ls.len() && 0 <= j < ls[i].len() ==> #[trigger] ls[i][j] != '\n',
        forall|i: int|
            0 <= i < ls.len() ==> !((#[trigger] ls[i]).len() > 0 && ls[i].last() == '\r'),
        0 <= i < ls.len(),
    ensures
        commented(text::ended_lines(ls)).len() == ls.len(),
        commented(text::ended_lines(ls))[i] == "// "@ + ls[i],
{
    text::law_lines_are_read_back(ls);
}

proof fn lemma_annotate_keeps_names(c: Seq<Tree>, name: Seq<char>, comment: Seq<char>, other: Seq<
    char,
>)
    ensures
        annotate_one(c, name, comment).len() == c.len(),
        forall|k: int|
            0 <= k < c.len() ==> (#[trigger] annotate_one(c, name, comment)[k]).name == c[k].name,
        document::find_node(annotate_one(c, name, comment), other) == document::find_node(c, other),
{
    let a = annotate_one(c, name, comment);
    document::lemma_find_node(c, name);
    document::lemma_find_node(c, other);
    let i = document::find_node(c, other);
    assert forall|k: int| 0 <= k < c.len() implies (#[trigger] a[k]).name == c[k].name by {}
    assert forall|j: int| 0 <= j < i implies (#[trigger] a[j]).name != other by {
        assert(c[j].name != other);
    }
    document::lemma_find_node_is(a, other, i);
}

/// Which section a comment goes with.
pub open spec fn section_comments() -> Seq<(Seq<char>, Seq<char>)> {
    seq![
        ("compile"@, COMPILE_COMMENT@),
        ("profiles"@, PROFILES_COMMENT@),
        ("siblings"@, SIBLINGS_COMMENT@),
        ("tests"@, TESTS_COMMENT@),
        ("dependencies"@, DEPENDENCIES_COMMENT@),
    ]
}

/// In an annotated manifest the first section of each name that has a comment is
/// led by it and by nothing else; every other node of the project is as it was.
pub proof fn law_sections_are_annotated(ts: Seq<Tree>, k: int, s: int)
    requires
        document::has_node(ts, "project"@),
        ts[document::find_node(ts, "project"@)].children is Some,
        0 <= k < document::kids(ts[document::find_node(ts, "project"@)]).len(),
        0 <= s < 5,
    ensures
        ({
            let i = document::find_node(ts, "project"@);
            let before = document::kids(ts[i]);
            let after = document::kids(annotated(ts)[i]);
            let name = section_comments()[s].0;
            &&& annotated(ts).len() == ts.len()
            &&& annotated(ts)[i].name == ts[i].name && annotated(ts)[i].entries == ts[i].entries
            &&& after.len() == before.len()
            &&& after[k].name == before[k].name && after[k].entries == before[k].entries
            &&& document::kids(after[k]) == document::kids(before[k])
            &&& before[k].name == name && document::find_node(before, name) == k ==> after[k].lead
                == leading_of(section_comments()[s].1)
            &&& before[k].name != "compile"@ && before[k].name != "profiles"@ && before[k].name
                != "siblings"@ && before[k].name != "tests"@ && before[k].name != "dependencies"@
                ==> after[k] == before[k]
        }),
{
    let i = document::find_node(ts, "project"@);
    document::lemma_find_node(ts, "project"@);
    let c0 = document::kids(ts[i]);
    let c1 = annotate_one(c0, "compile"@, COMPILE_COMMENT@);
    let c2 = annotate_one(c1, "profiles"@, PROFILES_COMMENT@);
    let c3 = annotate_one(c2, "siblings"@, SIBLINGS_COMMENT@);
    let c4 = annotate_one(c3, "tests"@, TESTS_COMMENT@);
    let name = section_comments()[s].0;
    reveal_strlit("compile");
    reveal_strlit("profiles");
    reveal_strlit("siblings");
    reveal_strlit("tests");
    reveal_strlit("dependencies");
    assert("compile"@.len() == 7 && "profiles"@.len() == 8 && "siblings"@.len() == 8
        && "tests"@.len() == 5 && "dependencies"@.len() == 12);
    assert("profiles"@[0] == 'p' && "siblings"@[0] == 's');
    lemma_annotate_keeps_names(c0, "compile"@, COMPILE_COMMENT@, name);
    lemma_annotate_keeps_names(c1, "profiles"@, PROFILES_COMMENT@, name);
    lemma_annotate_keeps_names(c2, "siblings"@, SIBLINGS_COMMENT@, name);
    lemma_annotate_keeps_names(c3, "tests"@, TESTS_COMMENT@, name);
    lemma_annotate_keeps_names(c4, "dependencies"@, DEPENDENCIES_COMMENT@, name);
    law_annotating_changes_no_node(c0, "compile"@, COMPILE_COMMENT@, k);
    law_annotating_changes_no_node(c1, "profiles"@, PROFILES_COMMENT@, k);
    law_annotating_changes_no_node(c2, "siblings"@, SIBLINGS_COMMENT@, k);
    law_annotating_changes_no_node(c3, "tests"@, TESTS_COMMENT@, k);
    law_annotating_changes_no_node(c4, "dependencies"@, DEPENDENCIES_COMMENT@, k);
}

} // verus!
