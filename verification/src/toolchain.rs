//! Compiler and linker dialects.
//!
//! Compiling and linking speak in semantics ("compile this source", "link these
//! objects into a shared library"); everything that differs between toolchains
//! (flag spelling, object and artifact extensions, the link closure, the archive
//! tool) lives behind the [`Driver`] trait here. A driver is modelled by its
//! [`Dialect`], and what it renders is a spec function of that.
//!
//! [`resolve`] picks a driver from the configured `cc`, falling back to a
//! language-appropriate default. Nothing here starts a process: where a tool has
//! to be asked, one function says what to ask it and another reads the answer.
use vstd::prelude::*;
use crate::paths;
use crate::proj_parse;
use crate::proj_parse::{Arch, Compile, CompileV, Language};
use crate::text;

verus! {

/// The operating system a build runs on, as far as names and flags differ.
#[derive(Clone, Copy, Debug, PartialEq, Eq, Structural)]
pub enum Os {
    MacOs,
    Windows,
    Other,
}

/// What a build has to know of the machine it runs on.
#[derive(Clone, Copy, Debug, PartialEq, Eq, Structural)]
pub struct Host {
    pub os: Os,
    /// Whether the build targets the MSVC ABI.
    pub msvc_abi: bool,
    /// Whether Visual Studio was found, outside an MSYS or MinGW shell.
    pub visual_studio: bool,
}

// ---------------------------------------------------------------------------
// Words and link lines
// ---------------------------------------------------------------------------

/// How far a line has been cut into words.
pub struct WordState {
    /// The words that are complete.
    pub done: Seq<Seq<char>>,
    /// The word at hand.
    pub current: Seq<char>,
    /// The quote that is open.
    pub quote: Option<char>,
    /// Whether the next character is taken as it is.
    pub escaped: bool,
}

/// What one more character does: quotes group, a backslash takes the next
/// character as it is, white space outside quotes ends a word.
pub open spec fn word_step(st: WordState, c: char) -> WordState {
    if st.escaped {
        WordState { current: st.current.push(c), escaped: false, ..st }
    } else if st.quote == Some(c) {
        WordState { quote: None, ..st }
    } else if c == '\\' {
        WordState { escaped: true, ..st }
    } else if st.quote is Some {
        WordState { current: st.current.push(c), ..st }
    } else if c == '"' || c == '\'' {
        WordState { quote: Some(c), ..st }
    } else if text::is_white(c) {
        if st.current.len() > 0 {
            WordState { done: st.done.push(st.current), current: Seq::empty(), ..st }
        } else {
            st
        }
    } else {
        WordState { current: st.current.push(c), ..st }
    }
}

/// How far a line has been cut after all of its characters.
pub open spec fn word_state(line: Seq<char>) -> WordState
    decreases line.len(),
{
    if line.len() == 0 {
        WordState { done: Seq::empty(), current: Seq::empty(), quote: None, escaped: false }
    } else {
        word_step(word_state(line.drop_last()), line.last())
    }
}

/// The shell-like words of a line. An open quote and an escape at the end are
/// forgiven, and empty words are dropped.
pub open spec fn words_of(line: Seq<char>) -> Seq<Seq<char>> {
    let st = word_state(line);
    if st.current.len() > 0 {
        st.done.push(st.current)
    } else {
        st.done
    }
}

/// Shell-like word split for `-###` output: handles `"`/`'` quoting and backslash
/// escapes, which a driver emits around arguments that hold spaces.
pub fn words(line: &str) -> (out: Vec<String>)
    ensures
        text::texts(out@) == words_of(line@),
{
    let cs = text::chars_of(line);
    let mut out = text::none();
    let mut current = String::new();
    let mut quote: Option<char> = None;
    let mut escaped = false;
    let mut i: usize = 0;
    proof {
        assert(line@.take(0) =~= Seq::empty());
    }
    while i < cs.len()
        invariant
            cs@ == line@,
            i <= cs@.len(),
            word_state(line@.take(i as int)) == (WordState {
                done: text::texts(out@),
                current: current@,
                quote,
                escaped,
            }),
        decreases cs@.len() - i,
    {
        let c = cs[i];
        proof {
            assert(line@.take(i + 1).drop_last() =~= line@.take(i as int));
            assert(line@.take(i + 1).last() == c);
        }
        let closes = match quote {
            Some(q) => q == c,
            None => false,
        };
        if escaped {
            current.push(c);
            escaped = false;
        } else if closes {
            quote = None;
        } else if c == '\\' {
            escaped = true;
        } else if quote.is_some() {
            current.push(c);
        } else if c == '"' || c == '\'' {
            quote = Some(c);
        } else if text::white(c) {
            if !current.as_str().is_empty() {
                text::push_text(&mut out, current.as_str());
                current = String::new();
            }
        } else {
            current.push(c);
        }
        i += 1;
    }
    proof {
        assert(line@.take(i as int) =~= line@);
    }
    if !current.as_str().is_empty() {
        text::push_text(&mut out, current.as_str());
    }
    out
}

/// Whether a program's name is that of a linker, or of gcc's wrapper around one.
pub open spec fn is_linker_name(name: Seq<char>) -> bool {
    ||| name == "ld"@
    ||| name == "ld.gold"@
    ||| name == "ld.lld"@
    ||| name == "lld"@
    ||| name == "mold"@
    ||| name == "gold"@
    ||| name == "collect2"@
    ||| name == "link"@
    ||| name == "lld-link"@
}

/// Whether a line, as words, runs a linker.
pub open spec fn runs_linker(toks: Seq<Seq<char>>) -> bool {
    toks.len() > 0 && is_linker_name(
        text::without_suffix(text::last_part(toks[0], text::Cut::Slash), ".exe"@),
    )
}

/// The last of the lines that runs a linker, as words.
pub open spec fn linker_line(ls: Seq<Seq<char>>) -> Option<Seq<Seq<char>>>
    decreases ls.len(),
{
    if ls.len() == 0 {
        None
    } else if runs_linker(words_of(ls.last())) {
        Some(words_of(ls.last()))
    } else {
        linker_line(ls.drop_last())
    }
}

/// Whether a token is driver plumbing whose value may follow as the next token.
pub open spec fn plumbing_option(t: Seq<char>) -> bool {
    t == "-o"@ || t == "-plugin"@ || t == "-plugin-opt"@ || t == "-pass-through"@
}

/// Whether a token is driver plumbing with its value attached.
pub open spec fn plumbing_assignment(t: Seq<char>) -> bool {
    text::begins(t, "-plugin-opt="@) || text::begins(t, "-plugin="@) || text::begins(
        t,
        "-pass-through="@,
    )
}

/// How many tokens the plumbing at the front of `toks` takes up: none where there
/// is no plumbing, two where an option is followed by its value.
pub open spec fn plumbing_len(toks: Seq<Seq<char>>) -> int {
    if toks.len() == 0 {
        0
    } else if plumbing_option(toks[0]) {
        if toks.len() > 1 && !text::begins(toks[1], "-"@) {
            2
        } else {
            1
        }
    } else if plumbing_assignment(toks[0]) {
        1
    } else {
        0
    }
}

/// The tokens without driver plumbing.
pub open spec fn without_plumbing(toks: Seq<Seq<char>>) -> Seq<Seq<char>>
    decreases toks.len(),
{
    if toks.len() == 0 {
        toks
    } else if plumbing_len(toks) > 0 {
        without_plumbing(toks.skip(plumbing_len(toks)))
    } else {
        seq![toks[0]] + without_plumbing(toks.skip(1))
    }
}

/// The first position of `t` in `toks`, or its length where it is absent.
pub open spec fn token_at(toks: Seq<Seq<char>>, t: Seq<char>) -> int
    decreases toks.len(),
{
    if toks.len() == 0 || toks[0] == t {
        0
    } else {
        1 + token_at(toks.skip(1), t)
    }
}

/// The link closure in the output of `cc -###`: what the driver passes to the
/// linker before and behind the dummy input, or what is missing.
pub open spec fn closure_of(output: Seq<char>) -> Result<
    (Seq<Seq<char>>, Seq<Seq<char>>),
    Seq<char>,
> {
    match linker_line(text::lines(output)) {
        None => Err("No linker invocation found in `-###` output"@),
        Some(line) => {
            let toks = without_plumbing(line.skip(1));
            let anchor = token_at(toks, "/dev/null"@);
            if anchor < toks.len() {
                Ok((toks.take(anchor), toks.skip(anchor + 1)))
            } else {
                Err("Failed to locate the input anchor in `-###` output"@)
            }
        },
    }
}

fn names_linker(name: &str) -> (res: bool)
    ensures
        res == is_linker_name(name@),
{
    text::same(name, "ld") || text::same(name, "ld.gold") || text::same(name, "ld.lld")
        || text::same(name, "lld") || text::same(name, "mold") || text::same(name, "gold")
        || text::same(name, "collect2") || text::same(name, "link") || text::same(name, "lld-link")
}

fn starts_linker(toks: &Vec<String>) -> (res: bool)
    ensures
        res == runs_linker(text::texts(toks@)),
{
    if toks.len() == 0 {
        return false;
    }
    proof {
        assert(text::texts(toks@)[0] == toks@[0]@);
    }
    let base = text::last_part_of(toks[0].as_str(), text::Cut::Slash);
    let name = text::strip_suffix(base.as_str(), ".exe");
    names_linker(name.as_str())
}

fn plumbing_length(toks: &Vec<String>, i: usize) -> (n: usize)
    requires
        i < toks@.len(),
    ensures
        n == plumbing_len(text::texts(toks@).skip(i as int)),
        n <= 2,
        i + n <= toks@.len(),
{
    let ghost rest = text::texts(toks@).skip(i as int);
    let t = toks[i].as_str();
    proof {
        assert(rest[0] == t@);
        assert(i + 1 < toks@.len() ==> rest[1] == toks@[i + 1]@);
    }
    if text::same(t, "-o") || text::same(t, "-plugin") || text::same(t, "-plugin-opt")
        || text::same(t, "-pass-through") {
        if toks.len() - i > 1 && !text::starts_with(toks[i + 1].as_str(), "-") {
            2
        } else {
            1
        }
    } else if text::starts_with(t, "-plugin-opt=") || text::starts_with(t, "-plugin=")
        || text::starts_with(t, "-pass-through=") {
        1
    } else {
        0
    }
}

fn drop_plumbing(toks: &Vec<String>, from: usize) -> (out: Vec<String>)
    requires
        from <= toks@.len(),
    ensures
        text::texts(out@) == without_plumbing(text::texts(toks@).skip(from as int)),
{
    let ghost all = text::texts(toks@);
    let n: usize = toks.len();
    let mut out = text::none();
    let mut i: usize = from;
    while i < n
        invariant
            from <= i <= n == toks@.len(),
            all == text::texts(toks@),
            without_plumbing(all.skip(from as int)) == text::texts(out@) + without_plumbing(
                all.skip(i as int),
            ),
        decreases n - i,
    {
        let k: usize = plumbing_length(toks, i);
        let ghost rest = all.skip(i as int);
        let ghost before = text::texts(out@);
        proof {
            assert(rest.skip(k as int) =~= all.skip(i + k));
            assert(rest.skip(1) =~= all.skip(i + 1));
        }
        if k > 0 {
            i += k;
        } else {
            text::push_text(&mut out, toks[i].as_str());
            proof {
                assert(before + (seq![rest[0]] + without_plumbing(all.skip(i + 1)))
                    =~= before.push(rest[0]) + without_plumbing(all.skip(i + 1)));
            }
            i += 1;
        }
    }
    proof {
        assert(all.skip(i as int) =~= Seq::empty());
        assert(text::texts(out@) + Seq::empty() =~= text::texts(out@));
    }
    out
}

fn position_of_token(toks: &Vec<String>, t: &str) -> (i: usize)
    ensures
        i == token_at(text::texts(toks@), t@),
        i <= toks@.len(),
{
    let ghost all = text::texts(toks@);
    let mut i: usize = 0;
    proof {
        assert(all.skip(0) =~= all);
    }
    while i < toks.len()
        invariant
            i <= toks@.len(),
            all == text::texts(toks@),
            token_at(all, t@) == i + token_at(all.skip(i as int), t@),
        decreases toks@.len() - i,
    {
        proof {
            assert(all.skip(i as int)[0] == toks@[i as int]@);
            assert(all.skip(i as int).skip(1) =~= all.skip(i + 1));
        }
        if text::same(toks[i].as_str(), t) {
            return i;
        }
        i += 1;
    }
    i
}

/// Parse the last linker (or `collect2`) command line out of `cc -###` output
/// into a closure `(prefix, suffix)` split at the dummy input anchor.
///
/// `gcc` wraps the real `ld` in `collect2`; the args after the wrapper are the
/// link closure. Driver-only plumbing (`-o`, `-plugin*`, `-pass-through*`) is
/// dropped, and the split leaves an insertion point for the caller's own objects
/// and libraries in the position the driver would have placed them.
pub fn parse_link_line(output: &str) -> (out: Result<(Vec<String>, Vec<String>), String>)
    ensures
        match out {
            Ok((prefix, suffix)) => closure_of(output@) == Ok::<
                (Seq<Seq<char>>, Seq<Seq<char>>),
                Seq<char>,
            >((text::texts(prefix@), text::texts(suffix@))),
            Err(e) => closure_of(output@) == Err::<(Seq<Seq<char>>, Seq<Seq<char>>), Seq<char>>(
                e@,
            ),
        },
{
    let ls = text::text_lines(output);
    let ghost all = text::lines(output@);
    let mut i: usize = ls.len();
    let mut found: Option<Vec<String>> = None;
    proof {
        assert(all.take(i as int) =~= all);
    }
    while i > 0 && found.is_none()
        invariant
            all == text::texts(ls@),
            i <= ls@.len(),
            match found {
                Some(toks) => linker_line(all) == Some(text::texts(toks@)) && toks@.len() > 0,
                None => linker_line(all) == linker_line(all.take(i as int)),
            },
        decreases i,
    {
        let toks = words(ls[i - 1].as_str());
        proof {
            assert(all.take(i as int).last() == ls@[i - 1]@);
            assert(all.take(i as int).drop_last() =~= all.take(i - 1));
            assert(text::texts(toks@).len() == toks@.len());
        }
        if starts_linker(&toks) {
            found = Some(toks);
        }
        i -= 1;
    }
    match found {
        None => Err("No linker invocation found in `-###` output".to_owned()),
        Some(line) => {
            let mut toks = drop_plumbing(&line, 1);
            let anchor: usize = position_of_token(&toks, "/dev/null");
            let ghost clean = text::texts(toks@);
            if anchor < toks.len() {
                let suffix = toks.split_off(anchor + 1);
                proof {
                    assert(text::texts(suffix@) =~= clean.skip(anchor + 1));
                }
                toks.remove(anchor);
                proof {
                    assert(text::texts(toks@) =~= clean.take(anchor as int));
                }
                Ok((toks, suffix))
            } else {
                Err("Failed to locate the input anchor in `-###` output".to_owned())
            }
        },
    }
}

proof fn lemma_without_plumbing(toks: Seq<Seq<char>>)
    ensures
        forall|i: int|
            0 <= i < without_plumbing(toks).len() ==> !plumbing_option(
                #[trigger] without_plumbing(toks)[i],
            ) && !plumbing_assignment(without_plumbing(toks)[i]),
    decreases toks.len(),
{
    if toks.len() > 0 {
        if plumbing_len(toks) > 0 {
            lemma_without_plumbing(toks.skip(plumbing_len(toks)));
            assert(without_plumbing(toks) == without_plumbing(toks.skip(plumbing_len(toks))));
        } else {
            let rest = without_plumbing(toks.skip(1));
            let all = without_plumbing(toks);
            lemma_without_plumbing(toks.skip(1));
            assert forall|i: int| 0 <= i < all.len() implies !plumbing_option(#[trigger] all[i])
                && !plumbing_assignment(all[i]) by {
                if i > 0 {
                    assert(all[i] == rest[i - 1]);
                }
            }
        }
    }
}

proof fn lemma_token_at(toks: Seq<Seq<char>>, t: Seq<char>)
    ensures
        0 <= token_at(toks, t) <= toks.len(),
        forall|i: int| 0 <= i < token_at(toks, t) ==> #[trigger] toks[i] != t,
    decreases toks.len(),
{
    if toks.len() > 0 && toks[0] != t {
        lemma_token_at(toks.skip(1), t);
        assert forall|i: int| 0 <= i < token_at(toks, t) implies #[trigger] toks[i] != t by {
            if i > 0 {
                assert(toks.skip(1)[i - 1] == toks[i]);
            }
        }
    }
}

/// A link closure holds no driver plumbing, and its prefix stops before the dummy
/// input.
pub proof fn law_closure_is_clean(output: Seq<char>)
    ensures
        closure_of(output) matches Ok((prefix, suffix)) ==> {
            &&& forall|i: int|
                0 <= i < prefix.len() ==> !plumbing_option(#[trigger] prefix[i])
                    && !plumbing_assignment(prefix[i]) && prefix[i] != "/dev/null"@
            &&& forall|i: int|
                0 <= i < suffix.len() ==> !plumbing_option(#[trigger] suffix[i])
                    && !plumbing_assignment(suffix[i])
        },
{
    if let Some(line) = linker_line(text::lines(output)) {
        let toks = without_plumbing(line.skip(1));
        lemma_without_plumbing(line.skip(1));
        lemma_token_at(toks, "/dev/null"@);
    }
}

// ---------------------------------------------------------------------------
// Dialects
// ---------------------------------------------------------------------------

/// The model of a driver: which command line it speaks, for which target.
pub enum Dialect {
    Gnu(Arch, Os),
    Microsoft(Arch),
}

/// Everything a link needs, stated as semantics; a driver renders it into its own
/// dialect's argv.
pub struct LinkJob<'a> {
    pub shared: bool,
    pub static_flag: Option<String>,
    pub prefix: &'a [String],
    pub objects: &'a [String],
    pub libs: &'a [String],
    pub extra_libs: &'a [String],
    pub flags: &'a [String],
    pub out: &'a str,
}

/// The model of a [`LinkJob`].
pub struct LinkJobV {
    pub shared: bool,
    pub static_flag: Option<Seq<char>>,
    pub prefix: Seq<Seq<char>>,
    pub objects: Seq<Seq<char>>,
    pub libs: Seq<Seq<char>>,
    pub extra_libs: Seq<Seq<char>>,
    pub flags: Seq<Seq<char>>,
    pub out: Seq<char>,
}

impl<'a> View for LinkJob<'a> {
    type V = LinkJobV;

    open spec fn view(&self) -> LinkJobV {
        LinkJobV {
            shared: self.shared,
            static_flag: text::opt(self.static_flag),
            prefix: text::texts(self.prefix@),
            objects: text::texts(self.objects@),
            libs: text::texts(self.libs@),
            extra_libs: text::texts(self.extra_libs@),
            flags: text::texts(self.flags@),
            out: self.out@,
        }
    }
}

/// The extension of object files.
pub open spec fn obj_ext_in(d: Dialect) -> Seq<char> {
    match d {
        Dialect::Gnu(..) => "o"@,
        Dialect::Microsoft(_) => "obj"@,
    }
}

/// The flag that selects a language standard.
pub open spec fn std_args_in(d: Dialect, standard: Seq<char>) -> Seq<Seq<char>> {
    match d {
        Dialect::Gnu(..) => seq!["-std="@ + standard],
        Dialect::Microsoft(_) => seq!["/std:"@ + standard],
    }
}

/// The flag that adds an include directory.
pub open spec fn include_arg_in(d: Dialect, dir: Seq<char>) -> Seq<char> {
    match d {
        Dialect::Gnu(..) => "-I"@ + dir,
        Dialect::Microsoft(_) => "/I"@ + dir,
    }
}

/// The flags every compilation gets.
pub open spec fn default_c_flags_in(d: Dialect, language: Language) -> Seq<Seq<char>> {
    match (d, language) {
        (Dialect::Gnu(..), _) => Seq::empty(),
        (Dialect::Microsoft(_), Language::C) => seq!["/nologo"@],
        (Dialect::Microsoft(_), Language::Cpp) => seq!["/nologo"@, "/EHsc"@],
    }
}

/// The end of a compile command: compile `src` into `obj`.
pub open spec fn compile_tail_in(d: Dialect, src: Seq<char>, obj: Seq<char>) -> Seq<Seq<char>> {
    match d {
        Dialect::Gnu(..) => seq!["-c"@, src, "-o"@, obj],
        Dialect::Microsoft(_) => seq!["/c"@, src, "/Fo:"@ + obj],
    }
}

/// The flag for position-independent code, where one is needed.
pub open spec fn pic_flag_in(d: Dialect) -> Option<Seq<char>> {
    match d {
        Dialect::Gnu(..) => Some("-fPIC"@),
        Dialect::Microsoft(_) => None,
    }
}

/// The flags that select the target. The MSVC environment selects it by itself.
pub open spec fn arch_flags_in(d: Dialect) -> Seq<Seq<char>> {
    match d {
        Dialect::Gnu(Arch::X86, _) => seq!["-m32"@],
        Dialect::Gnu(Arch::X86_64, _) => seq!["-m64"@],
        _ => Seq::empty(),
    }
}

/// The flag that asks for a static link.
pub open spec fn static_flag_in(d: Dialect) -> Seq<char> {
    match d {
        Dialect::Gnu(..) => "-static"@,
        Dialect::Microsoft(_) => "/MT"@,
    }
}

/// An optional token as a list.
pub open spec fn listed(t: Option<Seq<char>>) -> Seq<Seq<char>> {
    match t {
        Some(x) => seq![x],
        None => Seq::empty(),
    }
}

/// The static flag of a gnu link: left out where the flags hold `-static` already.
pub open spec fn gnu_static(job: LinkJobV) -> Seq<Seq<char>> {
    match job.static_flag {
        Some(sf) => if sf != "-static"@ || !job.flags.contains("-static"@) {
            seq![sf]
        } else {
            Seq::empty()
        },
        None => Seq::empty(),
    }
}

/// The flag that makes a gnu driver link a shared library.
pub open spec fn gnu_shared(os: Os) -> Seq<char> {
    match os {
        Os::MacOs => "-dynamiclib"@,
        _ => "-shared"@,
    }
}

/// The command that links a job through the compiler driver.
pub open spec fn driver_link_in(d: Dialect, job: LinkJobV) -> Seq<Seq<char>> {
    match d {
        Dialect::Gnu(_, os) => job.prefix + arch_flags_in(d) + gnu_static(job) + job.objects
            + job.libs + job.extra_libs + job.flags + (if job.shared {
            seq![gnu_shared(os)]
        } else {
            Seq::empty()
        }) + seq!["-o"@, job.out],
        Dialect::Microsoft(_) => job.prefix + seq!["/nologo"@] + (if job.shared {
            seq!["/LD"@]
        } else {
            Seq::empty()
        }) + listed(job.static_flag) + job.objects + job.libs + job.extra_libs + seq![
            "/Fe:"@ + job.out,
        ] + (if job.flags.len() > 0 {
            seq!["/link"@] + job.flags
        } else {
            Seq::empty()
        }),
    }
}

/// Whether a flag is one that only the compiler driver understands.
pub open spec fn driver_flag_in(d: Dialect, f: Seq<char>) -> bool {
    match d {
        Dialect::Gnu(..) => {
            ||| text::begins(f, "-Wl,"@)
            ||| text::begins(f, "-Xlinker"@)
            ||| text::begins(f, "-f"@)
            ||| f == "-pthread"@
            ||| text::begins(f, "-static-lib"@)
        },
        Dialect::Microsoft(_) => false,
    }
}

/// What a driver-only flag becomes for the linker itself, where it has a form.
pub open spec fn translated_in(d: Dialect, f: Seq<char>) -> Option<Seq<Seq<char>>> {
    match d {
        Dialect::Gnu(..) => {
            if text::begins(f, "-Wl,"@) {
                Some(text::filled(text::split(f.skip("-Wl,"@.len() as int), text::Cut::At(','))))
            } else if f == "-pthread"@ {
                Some(seq!["-lpthread"@])
            } else if f == "-rdynamic"@ {
                Some(seq!["-export-dynamic"@])
            } else if f == "-s"@ {
                Some(seq!["-s"@])
            } else if f == "-m32"@ {
                Some(seq!["-m"@, "elf_i386"@])
            } else if f == "-m64"@ {
                Some(seq!["-m"@, "elf_x86_64"@])
            } else if f == "-mx32"@ {
                Some(seq!["-m"@, "elf32_x86_64"@])
            } else if f == "-Bstatic"@ {
                Some(seq!["-Bstatic"@])
            } else if f == "-Bdynamic"@ {
                Some(seq!["-Bdynamic"@])
            } else {
                None
            }
        },
        Dialect::Microsoft(_) => None,
    }
}

/// Whether a flag forces the link through the driver: it is driver-only and has no
/// form for the linker.
pub open spec fn needs_driver_in(d: Dialect, f: Seq<char>) -> bool {
    driver_flag_in(d, f) && f != "-Xlinker"@ && translated_in(d, f) is None
}

/// Tokens in the form the linker takes: `-Xlinker` hands the next token over as it
/// is, driver-only flags are translated, and the rest passes through.
pub open spec fn linker_form(d: Dialect, toks: Seq<Seq<char>>) -> Seq<Seq<char>>
    decreases toks.len(),
{
    if toks.len() == 0 {
        toks
    } else if toks[0] == "-Xlinker"@ && toks.len() > 1 {
        seq![toks[1]] + linker_form(d, toks.skip(2))
    } else {
        (match translated_in(d, toks[0]) {
            Some(r) => r,
            None => seq![toks[0]],
        }) + linker_form(d, toks.skip(1))
    }
}

/// What a compiler is told of a job when it is asked for its link closure.
pub open spec fn closure_mode(job: LinkJobV) -> Seq<Seq<char>> {
    if job.shared {
        seq!["-shared"@]
    } else if job.static_flag is Some {
        seq!["-static"@]
    } else {
        Seq::empty()
    }
}

/// The command that makes a compiler print its link closure; none where objects
/// carry what the linker needs.
pub open spec fn closure_query_in(
    d: Dialect,
    cc: Seq<Seq<char>>,
    extra: Seq<Seq<char>>,
) -> Option<Seq<Seq<char>>> {
    match d {
        Dialect::Gnu(..) => Some(
            cc + arch_flags_in(d) + extra + seq!["-###"@, "-o"@, "/dev/null"@, "/dev/null"@],
        ),
        Dialect::Microsoft(_) => None,
    }
}

/// The command that makes a compiler print the linker it uses; none where that is
/// fixed.
pub open spec fn linker_query_in(d: Dialect, cc: Seq<Seq<char>>) -> Option<Seq<Seq<char>>> {
    match d {
        Dialect::Gnu(..) => Some(cc + seq!["-print-prog-name=ld"@]),
        Dialect::Microsoft(_) => None,
    }
}

/// The linker of a dialect, from the answer to [`linker_query_in`].
pub open spec fn default_linker_in(d: Dialect, answer: Seq<char>) -> Seq<char> {
    match d {
        Dialect::Gnu(..) => text::trim(answer),
        Dialect::Microsoft(_) => "link.exe"@,
    }
}

/// The command that links a job with the linker itself, inside a link closure.
pub open spec fn raw_link_in(
    d: Dialect,
    job: LinkJobV,
    before: Seq<Seq<char>>,
    behind: Seq<Seq<char>>,
) -> Seq<Seq<char>> {
    match d {
        Dialect::Gnu(..) => seq![job.prefix[0]] + before + job.objects + job.libs + linker_form(
            d,
            job.extra_libs,
        ) + linker_form(d, job.flags) + behind + seq!["-o"@, job.out],
        Dialect::Microsoft(_) => seq![job.prefix[0], "/nologo"@] + (if job.shared {
            seq!["/DLL"@]
        } else {
            Seq::empty()
        }) + job.objects + job.libs + job.extra_libs + seq!["/OUT:"@ + job.out] + job.flags,
    }
}

/// The file name of a static library.
pub open spec fn archive_name_in(d: Dialect, base: Seq<char>) -> Seq<char> {
    match d {
        Dialect::Gnu(..) => "lib"@ + base + ".a"@,
        Dialect::Microsoft(_) => base + ".lib"@,
    }
}

/// The model of a list of named commands.
pub open spec fn steps(v: Seq<(String, Vec<String>)>) -> Seq<(Seq<char>, Seq<Seq<char>>)> {
    v.map_values(|s: (String, Vec<String>)| (s.0@, text::texts(s.1@)))
}

/// The commands that make a static library, each with what it is shown as.
pub open spec fn archive_in(d: Dialect, out: Seq<char>, objects: Seq<Seq<char>>) -> Seq<
    (Seq<char>, Seq<Seq<char>>),
> {
    match d {
        Dialect::Gnu(..) => seq![
            ("Archiving"@, seq!["ar"@, "rcs"@, out] + objects),
            ("Indexing"@, seq!["ranlib"@, out]),
        ],
        Dialect::Microsoft(_) => seq![
            ("Archiving"@, seq!["lib.exe"@, "/nologo"@, "/OUT:"@ + out] + objects),
        ],
    }
}

/// The file that a compilation leaves behind to say what its object was made from,
/// and the flags that ask for it.
pub open spec fn depfile_in(d: Dialect, obj: Seq<char>) -> (Seq<char>, Seq<Seq<char>>) {
    match d {
        Dialect::Gnu(..) => (obj + ".d"@, seq!["-MMD"@, "-MF"@, obj + ".d"@]),
        Dialect::Microsoft(_) => (
            obj + ".json"@,
            seq!["/sourceDependencies"@, obj + ".json"@],
        ),
    }
}

/// The `vcvarsall` argument whose environment a dialect runs in; none where it
/// needs no environment of its own.
pub open spec fn vcvars_in(d: Dialect) -> Option<Seq<char>> {
    match d {
        Dialect::Gnu(..) => None,
        Dialect::Microsoft(arch) => Some(vcvars_target_of(arch)),
    }
}

/// One toolchain's dialect.
pub trait Driver {
    /// Which command line this driver speaks.
    spec fn dialect(&self) -> Dialect;

    /// The extension of object files.
    fn obj_ext(&self) -> (out: &'static str)
        ensures
            out@ == obj_ext_in(self.dialect()),
    ;

    /// The flag that selects a language standard.
    fn std_args(&self, standard: &str) -> (out: Vec<String>)
        ensures
            text::texts(out@) == std_args_in(self.dialect(), standard@),
    ;

    /// The flag that adds an include directory.
    fn include_arg(&self, dir: &str) -> (out: String)
        ensures
            out@ == include_arg_in(self.dialect(), dir@),
    ;

    /// The flags every compilation gets.
    fn default_c_flags(&self, language: &Language) -> (out: Vec<String>)
        ensures
            text::texts(out@) == default_c_flags_in(self.dialect(), *language),
    ;

    /// The end of a compile command.
    fn compile_tail(&self, src: &str, obj: &str) -> (out: Vec<String>)
        ensures
            text::texts(out@) == compile_tail_in(self.dialect(), src@, obj@),
    ;

    /// The flag for position-independent code.
    fn pic_flag(&self) -> (out: Option<String>)
        ensures
            text::opt(out) == pic_flag_in(self.dialect()),
    ;

    /// The flags that select the target.
    fn arch_flags(&self) -> (out: Vec<String>)
        ensures
            text::texts(out@) == arch_flags_in(self.dialect()),
    ;

    /// The flag that asks for a static link.
    fn static_flag(&self) -> (out: Option<String>)
        ensures
            text::opt(out) == Some(static_flag_in(self.dialect())),
    ;

    /// Whether the linker can be called without the compiler driver.
    fn supports_raw_link(&self) -> (res: bool)
        ensures
            res,
    ;

    /// The command that links a job through the compiler driver.
    fn driver_link_args(&self, job: &LinkJob) -> (out: Vec<String>)
        ensures
            text::texts(out@) == driver_link_in(self.dialect(), job@),
    ;

    /// Whether only the compiler driver understands a flag.
    fn is_driver_flag(&self, f: &str) -> (res: bool)
        ensures
            res == driver_flag_in(self.dialect(), f@),
    ;

    /// What a driver-only flag becomes for the linker itself.
    fn translate_flag(&self, f: &str) -> (out: Option<Vec<String>>)
        ensures
            text::opt_texts(out) == translated_in(self.dialect(), f@),
    ;

    /// Whether a flag forces the link through the driver.
    fn needs_driver(&self, f: &str) -> (res: bool)
        ensures
            res == needs_driver_in(self.dialect(), f@),
    ;

    /// The command that makes a compiler print its link closure.
    fn closure_query(&self, cc: &[String], extra: &[String]) -> (out: Option<Vec<String>>)
        ensures
            text::opt_texts(out) == closure_query_in(
                self.dialect(),
                text::texts(cc@),
                text::texts(extra@),
            ),
    ;

    /// The command that makes a compiler print the linker it uses.
    fn linker_query(&self, cc: &[String]) -> (out: Option<Vec<String>>)
        ensures
            text::opt_texts(out) == linker_query_in(self.dialect(), text::texts(cc@)),
    ;

    /// The linker of the dialect, from the answer to [`Self::linker_query`].
    fn default_linker(&self, answer: &str) -> (out: String)
        ensures
            out@ == default_linker_in(self.dialect(), answer@),
    ;

    /// The command that links a job with the linker itself.
    fn raw_link_args(&self, job: &LinkJob, before: &[String], behind: &[String]) -> (out: Vec<
        String,
    >)
        requires
            job@.prefix.len() > 0,
        ensures
            text::texts(out@) == raw_link_in(
                self.dialect(),
                job@,
                text::texts(before@),
                text::texts(behind@),
            ),
    ;

    /// The file name of a static library.
    fn static_archive_name(&self, base: &str) -> (out: String)
        ensures
            out@ == archive_name_in(self.dialect(), base@),
    ;

    /// The commands that make a static library.
    fn archive(&self, out: &str, objects: &[String]) -> (cmds: Vec<(String, Vec<String>)>)
        ensures
            steps(cmds@) == archive_in(self.dialect(), out@, text::texts(objects@)),
    ;

    /// The file a compilation leaves behind to say what its object was made from,
    /// and the flags that ask for it.
    fn depfile(&self, obj: &str) -> (out: (String, Vec<String>))
        ensures
            (out.0@, text::texts(out.1@)) == depfile_in(self.dialect(), obj@),
    ;

    /// The `vcvarsall` argument whose environment the driver runs in.
    fn vcvars(&self) -> (out: Option<&'static str>)
        ensures
            text::opt(out) == vcvars_in(self.dialect()),
    ;
}

/// The `vcvarsall` argument for a target.
pub open spec fn vcvars_target_of(arch: Arch) -> Seq<char> {
    match arch {
        Arch::X86 => "x86"@,
        Arch::Arm64 => "arm64"@,
        _ => "x64"@,
    }
}

/// The `vcvarsall` argument for a target.
pub fn vcvars_target(arch: Arch) -> (out: &'static str)
    ensures
        out@ == vcvars_target_of(arch),
{
    match arch {
        Arch::X86 => "x86",
        Arch::Arm64 => "arm64",
        Arch::Native | Arch::X86_64 => "x64",
    }
}

/// The command line of gcc and everything compatible with it.
#[derive(Debug)]
pub struct Gnu {
    pub arch: Arch,
    pub os: Os,
}

/// The command line of MSVC.
#[derive(Debug)]
pub struct Microsoft {
    pub arch: Arch,
}

fn push_pair(v: &mut Vec<(String, Vec<String>)>, name: &str, argv: Vec<String>)
    ensures
        steps(final(v)@) == steps(old(v)@).push((name@, text::texts(argv@))),
{
    let ghost before = v@;
    let ghost args = text::texts(argv@);
    v.push((name.to_owned(), argv));
    proof {
        assert(steps(v@) =~= steps(before).push((name@, args)));
    }
}

impl Gnu {
    /// Map driver-only tokens (pkg-config output, user `ld_flags`) to raw linker
    /// form. Tokens the linker understands directly pass through unchanged.
    pub fn translated(&self, tokens: &[String]) -> (out: Vec<String>)
        ensures
            text::texts(out@) == linker_form(self.dialect(), text::texts(tokens@)),
    {
        let ghost all = text::texts(tokens@);
        let n: usize = tokens.len();
        let mut out = text::none();
        let mut i: usize = 0;
        proof {
            assert(all.skip(0) =~= all);
        }
        while i < n
            invariant
                i <= n == tokens@.len(),
                all == text::texts(tokens@),
                linker_form(self.dialect(), all) == text::texts(out@) + linker_form(
                    self.dialect(),
                    all.skip(i as int),
                ),
            decreases n - i,
        {
            let ghost d = self.dialect();
            let ghost rest = all.skip(i as int);
            let ghost before = text::texts(out@);
            let t = tokens[i].as_str();
            proof {
                assert(rest[0] == t@);
                assert(rest.skip(1) =~= all.skip(i + 1));
                assert(rest.len() > 1 ==> rest[1] == tokens@[i + 1]@);
                assert(rest.len() > 1 ==> rest.skip(2) =~= all.skip(i + 2));
            }
            if text::same(t, "-Xlinker") && n - i > 1 {
                text::push_text(&mut out, tokens[i + 1].as_str());
                proof {
                    assert(before + (seq![rest[1]] + linker_form(d, all.skip(i + 2)))
                        =~= before.push(rest[1]) + linker_form(d, all.skip(i + 2)));
                }
                i += 2;
            } else {
                match self.translate_flag(t) {
                    Some(repl) => {
                        text::extend_texts(&mut out, repl.as_slice());
                        proof {
                            let r = text::texts(repl@);
                            assert(before + (r + linker_form(d, all.skip(i + 1))) =~= before + r
                                + linker_form(d, all.skip(i + 1)));
                        }
                    },
                    None => {
                        text::push_text(&mut out, t);
                        proof {
                            assert(before + (seq![rest[0]] + linker_form(d, all.skip(i + 1)))
                                =~= before.push(rest[0]) + linker_form(d, all.skip(i + 1)));
                        }
                    },
                }
                i += 1;
            }
        }
        proof {
            assert(all.skip(i as int) =~= Seq::empty());
            assert(text::texts(out@) + Seq::empty() =~= text::texts(out@));
        }
        out
    }
}

fn two(a: &str, b: &str) -> (out: Vec<String>)
    ensures
        text::texts(out@) == seq![a@, b@],
{
    let mut out = text::one(a);
    text::push_text(&mut out, b);
    out
}

impl Driver for Gnu {
    open spec fn dialect(&self) -> Dialect {
        Dialect::Gnu(self.arch, self.os)
    }

    fn obj_ext(&self) -> (out: &'static str) {
        "o"
    }

    fn std_args(&self, standard: &str) -> (out: Vec<String>) {
        let flag = text::cat("-std=", standard);
        text::one(flag.as_str())
    }

    fn include_arg(&self, dir: &str) -> (out: String) {
        text::cat("-I", dir)
    }

    fn default_c_flags(&self, _language: &Language) -> (out: Vec<String>) {
        text::none()
    }

    fn compile_tail(&self, src: &str, obj: &str) -> (out: Vec<String>) {
        let mut out = two("-c", src);
        text::push_text(&mut out, "-o");
        text::push_text(&mut out, obj);
        out
    }

    fn pic_flag(&self) -> (out: Option<String>) {
        Some("-fPIC".to_owned())
    }

    fn arch_flags(&self) -> (out: Vec<String>) {
        match self.arch {
            Arch::X86 => text::one("-m32"),
            Arch::X86_64 => text::one("-m64"),
            Arch::Native | Arch::Arm64 => text::none(),
        }
    }

    fn static_flag(&self) -> (out: Option<String>) {
        Some("-static".to_owned())
    }

    fn supports_raw_link(&self) -> (res: bool) {
        true
    }

    fn driver_link_args(&self, job: &LinkJob) -> (out: Vec<String>) {
        let mut argv = text::copy_texts(job.prefix);
        let arch = self.arch_flags();
        text::extend_texts(&mut argv, arch.as_slice());
        let ghost so_far = text::texts(argv@);
        if let Some(sf) = &job.static_flag {
            if !text::same(sf.as_str(), "-static") || !text::has_text(job.flags, "-static") {
                text::push_text(&mut argv, sf.as_str());
            }
        }
        proof {
            assert(text::texts(argv@) =~= so_far + gnu_static(job@));
        }
        text::extend_texts(&mut argv, job.objects);
        text::extend_texts(&mut argv, job.libs);
        text::extend_texts(&mut argv, job.extra_libs);
        text::extend_texts(&mut argv, job.flags);
        let ghost so_far = text::texts(argv@);
        if job.shared {
            match self.os {
                Os::MacOs => text::push_text(&mut argv, "-dynamiclib"),
                _ => text::push_text(&mut argv, "-shared"),
            }
        }
        text::push_text(&mut argv, "-o");
        text::push_text(&mut argv, job.out);
        proof {
            assert(text::texts(argv@) =~= so_far + (if job.shared {
                seq![gnu_shared(self.os)]
            } else {
                Seq::empty()
            }) + seq!["-o"@, job.out@]);
        }
        argv
    }

    fn is_driver_flag(&self, f: &str) -> (res: bool) {
        text::starts_with(f, "-Wl,") || text::starts_with(f, "-Xlinker") || text::starts_with(
            f,
            "-f",
        ) || text::same(f, "-pthread") || text::starts_with(f, "-static-lib")
    }

    fn translate_flag(&self, f: &str) -> (out: Option<Vec<String>>) {
        if let Some(rest) = text::strip_prefix(f, "-Wl,") {
            let parts = text::split_text(rest.as_str(), text::Cut::At(','));
            return Some(text::filled_texts(parts.as_slice()));
        }
        if text::same(f, "-pthread") {
            Some(text::one("-lpthread"))
        } else if text::same(f, "-rdynamic") {
            Some(text::one("-export-dynamic"))
        } else if text::same(f, "-s") {
            Some(text::one("-s"))
        } else if text::same(f, "-m32") {
            Some(two("-m", "elf_i386"))
        } else if text::same(f, "-m64") {
            Some(two("-m", "elf_x86_64"))
        } else if text::same(f, "-mx32") {
            Some(two("-m", "elf32_x86_64"))
        } else if text::same(f, "-Bstatic") {
            Some(text::one("-Bstatic"))
        } else if text::same(f, "-Bdynamic") {
            Some(text::one("-Bdynamic"))
        } else {
            None
        }
    }

    fn needs_driver(&self, f: &str) -> (res: bool) {
        self.is_driver_flag(f) && !(text::same(f, "-Xlinker") || self.translate_flag(f).is_some())
    }

    fn closure_query(&self, cc: &[String], extra: &[String]) -> (out: Option<Vec<String>>) {
        let mut argv = text::copy_texts(cc);
        let arch = self.arch_flags();
        text::extend_texts(&mut argv, arch.as_slice());
        text::extend_texts(&mut argv, extra);
        let ghost so_far = text::texts(argv@);
        text::push_text(&mut argv, "-###");
        text::push_text(&mut argv, "-o");
        text::push_text(&mut argv, "/dev/null");
        text::push_text(&mut argv, "/dev/null");
        proof {
            assert(text::texts(argv@) =~= so_far + seq![
                "-###"@,
                "-o"@,
                "/dev/null"@,
                "/dev/null"@,
            ]);
        }
        Some(argv)
    }

    fn linker_query(&self, cc: &[String]) -> (out: Option<Vec<String>>) {
        let mut argv = text::copy_texts(cc);
        let ghost so_far = text::texts(argv@);
        text::push_text(&mut argv, "-print-prog-name=ld");
        proof {
            assert(text::texts(argv@) =~= so_far + seq!["-print-prog-name=ld"@]);
        }
        Some(argv)
    }

    fn default_linker(&self, answer: &str) -> (out: String) {
        text::text_trim(answer)
    }

    fn raw_link_args(&self, job: &LinkJob, before: &[String], behind: &[String]) -> (out: Vec<
        String,
    >) {
        proof {
            assert(job@.prefix[0] == job.prefix@[0]@);
        }
        let mut argv = text::one(job.prefix[0].as_str());
        text::extend_texts(&mut argv, before);
        text::extend_texts(&mut argv, job.objects);
        text::extend_texts(&mut argv, job.libs);
        let extra = self.translated(job.extra_libs);
        text::extend_texts(&mut argv, extra.as_slice());
        let flags = self.translated(job.flags);
        text::extend_texts(&mut argv, flags.as_slice());
        text::extend_texts(&mut argv, behind);
        let ghost so_far = text::texts(argv@);
        text::push_text(&mut argv, "-o");
        text::push_text(&mut argv, job.out);
        proof {
            assert(text::texts(argv@) =~= so_far + seq!["-o"@, job.out@]);
        }
        argv
    }

    fn static_archive_name(&self, base: &str) -> (out: String) {
        text::cat3("lib", base, ".a")
    }

    fn archive(&self, out: &str, objects: &[String]) -> (cmds: Vec<(String, Vec<String>)>) {
        let mut ar = two("ar", "rcs");
        text::push_text(&mut ar, out);
        text::extend_texts(&mut ar, objects);
        let ranlib = two("ranlib", out);
        let mut cmds: Vec<(String, Vec<String>)> = Vec::new();
        proof {
            assert(steps(cmds@) =~= Seq::empty());
        }
        let ghost ar_words = text::texts(ar@);
        push_pair(&mut cmds, "Archiving", ar);
        push_pair(&mut cmds, "Indexing", ranlib);
        proof {
            assert(ar_words =~= seq!["ar"@, "rcs"@, out@] + text::texts(objects@));
            assert(steps(cmds@) =~= archive_in(self.dialect(), out@, text::texts(objects@)));
        }
        cmds
    }

    fn depfile(&self, obj: &str) -> (out: (String, Vec<String>)) {
        let path = text::cat(obj, ".d");
        let mut args = two("-MMD", "-MF");
        text::push_text(&mut args, path.as_str());
        proof {
            assert(text::texts(args@) =~= seq!["-MMD"@, "-MF"@, obj@ + ".d"@]);
        }
        (path, args)
    }

    fn vcvars(&self) -> (out: Option<&'static str>) {
        None
    }
}

impl Driver for Microsoft {
    open spec fn dialect(&self) -> Dialect {
        Dialect::Microsoft(self.arch)
    }

    fn obj_ext(&self) -> (out: &'static str) {
        "obj"
    }

    fn std_args(&self, standard: &str) -> (out: Vec<String>) {
        let flag = text::cat("/std:", standard);
        text::one(flag.as_str())
    }

    fn include_arg(&self, dir: &str) -> (out: String) {
        text::cat("/I", dir)
    }

    fn default_c_flags(&self, language: &Language) -> (out: Vec<String>) {
        match language {
            Language::C => text::one("/nologo"),
            Language::Cpp => two("/nologo", "/EHsc"),
        }
    }

    fn compile_tail(&self, src: &str, obj: &str) -> (out: Vec<String>) {
        let mut out = two("/c", src);
        let target = text::cat("/Fo:", obj);
        text::push_text(&mut out, target.as_str());
        out
    }

    fn pic_flag(&self) -> (out: Option<String>) {
        None
    }

    fn arch_flags(&self) -> (out: Vec<String>) {
        text::none()
    }

    fn static_flag(&self) -> (out: Option<String>) {
        Some("/MT".to_owned())
    }

    fn supports_raw_link(&self) -> (res: bool) {
        true
    }

    fn driver_link_args(&self, job: &LinkJob) -> (out: Vec<String>) {
        let mut argv = text::copy_texts(job.prefix);
        let ghost start = text::texts(argv@);
        text::push_text(&mut argv, "/nologo");
        if job.shared {
            text::push_text(&mut argv, "/LD");
        }
        if let Some(sf) = &job.static_flag {
            text::push_text(&mut argv, sf.as_str());
        }
        proof {
            assert(text::texts(argv@) =~= start + seq!["/nologo"@] + (if job.shared {
                seq!["/LD"@]
            } else {
                Seq::empty()
            }) + listed(job@.static_flag));
        }
        text::extend_texts(&mut argv, job.objects);
        text::extend_texts(&mut argv, job.libs);
        text::extend_texts(&mut argv, job.extra_libs);
        let ghost middle = text::texts(argv@);
        let target = text::cat("/Fe:", job.out);
        text::push_text(&mut argv, target.as_str());
        if job.flags.len() > 0 {
            text::push_text(&mut argv, "/link");
            text::extend_texts(&mut argv, job.flags);
        }
        proof {
            assert(text::texts(argv@) =~= middle + seq!["/Fe:"@ + job.out@] + (if job@.flags.len()
                > 0 {
                seq!["/link"@] + job@.flags
            } else {
                Seq::empty()
            }));
        }
        argv
    }

    fn is_driver_flag(&self, _f: &str) -> (res: bool) {
        false
    }

    fn translate_flag(&self, _f: &str) -> (out: Option<Vec<String>>) {
        None
    }

    fn needs_driver(&self, _f: &str) -> (res: bool) {
        false
    }

    fn closure_query(&self, _cc: &[String], _extra: &[String]) -> (out: Option<Vec<String>>) {
        None
    }

    fn linker_query(&self, _cc: &[String]) -> (out: Option<Vec<String>>) {
        None
    }

    fn default_linker(&self, _answer: &str) -> (out: String) {
        "link.exe".to_owned()
    }

    fn raw_link_args(&self, job: &LinkJob, _before: &[String], _behind: &[String]) -> (out: Vec<
        String,
    >) {
        proof {
            assert(job@.prefix[0] == job.prefix@[0]@);
        }
        let mut argv = two(job.prefix[0].as_str(), "/nologo");
        let ghost start = text::texts(argv@);
        if job.shared {
            text::push_text(&mut argv, "/DLL");
        }
        proof {
            assert(text::texts(argv@) =~= start + (if job.shared {
                seq!["/DLL"@]
            } else {
                Seq::empty()
            }));
        }
        text::extend_texts(&mut argv, job.objects);
        text::extend_texts(&mut argv, job.libs);
        text::extend_texts(&mut argv, job.extra_libs);
        let ghost middle = text::texts(argv@);
        let target = text::cat("/OUT:", job.out);
        text::push_text(&mut argv, target.as_str());
        proof {
            assert(text::texts(argv@) =~= middle + seq!["/OUT:"@ + job.out@]);
        }
        text::extend_texts(&mut argv, job.flags);
        argv
    }

    fn static_archive_name(&self, base: &str) -> (out: String) {
        text::cat(base, ".lib")
    }

    fn archive(&self, out: &str, objects: &[String]) -> (cmds: Vec<(String, Vec<String>)>) {
        let mut args = two("lib.exe", "/nologo");
        let target = text::cat("/OUT:", out);
        text::push_text(&mut args, target.as_str());
        text::extend_texts(&mut args, objects);
        let mut cmds: Vec<(String, Vec<String>)> = Vec::new();
        proof {
            assert(steps(cmds@) =~= Seq::empty());
        }
        let ghost words = text::texts(args@);
        push_pair(&mut cmds, "Archiving", args);
        proof {
            assert(words =~= seq!["lib.exe"@, "/nologo"@, "/OUT:"@ + out@] + text::texts(objects@));
            assert(steps(cmds@) =~= archive_in(self.dialect(), out@, text::texts(objects@)));
        }
        cmds
    }

    fn depfile(&self, obj: &str) -> (out: (String, Vec<String>)) {
        let path = text::cat(obj, ".json");
        let args = two("/sourceDependencies", path.as_str());
        (path, args)
    }

    fn vcvars(&self) -> (out: Option<&'static str>) {
        Some(vcvars_target(self.arch))
    }
}

/// A resolved compiler plus its dialect, with forwarding methods so callers never
/// name a specific driver.
pub struct Toolchain {
    pub cc: Vec<String>,
    pub driver: Box<dyn Driver>,
}

/// The model of a [`Toolchain`].
pub struct ToolchainV {
    pub cc: Seq<Seq<char>>,
    pub dialect: Dialect,
}

impl View for Toolchain {
    type V = ToolchainV;

    open spec fn view(&self) -> ToolchainV {
        ToolchainV { cc: text::texts(self.cc@), dialect: self.driver.dialect() }
    }
}

impl Toolchain {
    /// A gnu toolchain for the native target.
    pub fn gnu(cc: Vec<String>, os: Os) -> (out: Toolchain)
        ensures
            out@ == (ToolchainV { cc: text::texts(cc@), dialect: Dialect::Gnu(Arch::Native, os) }),
    {
        Toolchain { cc, driver: Box::new(Gnu { arch: Arch::Native, os }) }
    }

    /// An MSVC toolchain for the native target.
    pub fn microsoft(cc: Vec<String>) -> (out: Toolchain)
        ensures
            out@ == (ToolchainV {
                cc: text::texts(cc@),
                dialect: Dialect::Microsoft(Arch::Native),
            }),
    {
        Toolchain { cc, driver: Box::new(Microsoft { arch: Arch::Native }) }
    }

    /// The extension of object files.
    pub fn obj_ext(&self) -> (out: &'static str)
        ensures
            out@ == obj_ext_in(self@.dialect),
    {
        self.driver.obj_ext()
    }

    /// The flag that selects a language standard.
    pub fn std_args(&self, standard: &str) -> (out: Vec<String>)
        ensures
            text::texts(out@) == std_args_in(self@.dialect, standard@),
    {
        self.driver.std_args(standard)
    }

    /// The flag that adds an include directory.
    pub fn include_arg(&self, dir: &str) -> (out: String)
        ensures
            out@ == include_arg_in(self@.dialect, dir@),
    {
        self.driver.include_arg(dir)
    }

    /// The flags every compilation gets.
    pub fn default_c_flags(&self, language: &Language) -> (out: Vec<String>)
        ensures
            text::texts(out@) == default_c_flags_in(self@.dialect, *language),
    {
        self.driver.default_c_flags(language)
    }

    /// The end of a compile command.
    pub fn compile_tail(&self, src: &str, obj: &str) -> (out: Vec<String>)
        ensures
            text::texts(out@) == compile_tail_in(self@.dialect, src@, obj@),
    {
        self.driver.compile_tail(src, obj)
    }

    /// The flag for position-independent code.
    pub fn pic_flag(&self) -> (out: Option<String>)
        ensures
            text::opt(out) == pic_flag_in(self@.dialect),
    {
        self.driver.pic_flag()
    }

    /// The flags that select the target.
    pub fn arch_flags(&self) -> (out: Vec<String>)
        ensures
            text::texts(out@) == arch_flags_in(self@.dialect),
    {
        self.driver.arch_flags()
    }

    /// The flag that asks for a static link.
    pub fn static_flag(&self) -> (out: Option<String>)
        ensures
            text::opt(out) == Some(static_flag_in(self@.dialect)),
    {
        self.driver.static_flag()
    }

    /// Whether the linker can be called without the compiler driver.
    pub fn supports_raw_link(&self) -> (res: bool)
        ensures
            res,
    {
        self.driver.supports_raw_link()
    }

    /// The command that links a job through the compiler driver.
    pub fn driver_link_args(&self, job: &LinkJob) -> (out: Vec<String>)
        ensures
            text::texts(out@) == driver_link_in(self@.dialect, job@),
    {
        self.driver.driver_link_args(job)
    }

    /// Whether a flag forces the link through the driver.
    pub fn needs_driver(&self, f: &str) -> (res: bool)
        ensures
            res == needs_driver_in(self@.dialect, f@),
    {
        self.driver.needs_driver(f)
    }

    /// The command that makes the compiler print its link closure for a job.
    pub fn closure_query(&self, job: &LinkJob) -> (out: Option<Vec<String>>)
        ensures
            text::opt_texts(out) == closure_query_in(self@.dialect, self@.cc, closure_mode(job@)),
    {
        let mode = if job.shared {
            text::one("-shared")
        } else if job.static_flag.is_some() {
            text::one("-static")
        } else {
            text::none()
        };
        self.driver.closure_query(self.cc.as_slice(), mode.as_slice())
    }

    /// The command that makes the compiler print the linker it uses.
    pub fn linker_query(&self) -> (out: Option<Vec<String>>)
        ensures
            text::opt_texts(out) == linker_query_in(self@.dialect, self@.cc),
    {
        self.driver.linker_query(self.cc.as_slice())
    }

    /// The linker of the dialect, from the answer to [`Self::linker_query`].
    pub fn default_linker(&self, answer: &str) -> (out: String)
        ensures
            out@ == default_linker_in(self@.dialect, answer@),
    {
        self.driver.default_linker(answer)
    }

    /// The command that links a job with the linker itself.
    pub fn raw_link_args(&self, job: &LinkJob, before: &[String], behind: &[String]) -> (out: Vec<
        String,
    >)
        requires
            job@.prefix.len() > 0,
        ensures
            text::texts(out@) == raw_link_in(
                self@.dialect,
                job@,
                text::texts(before@),
                text::texts(behind@),
            ),
    {
        self.driver.raw_link_args(job, before, behind)
    }

    /// The file name of a static library.
    pub fn static_archive_name(&self, base: &str) -> (out: String)
        ensures
            out@ == archive_name_in(self@.dialect, base@),
    {
        self.driver.static_archive_name(base)
    }

    /// The commands that make a static library.
    pub fn archive(&self, out: &str, objects: &[String]) -> (cmds: Vec<(String, Vec<String>)>)
        ensures
            steps(cmds@) == archive_in(self@.dialect, out@, text::texts(objects@)),
    {
        self.driver.archive(out, objects)
    }

    /// The file a compilation leaves behind to say what its object was made from,
    /// and the flags that ask for it.
    pub fn depfile(&self, obj: &str) -> (out: (String, Vec<String>))
        ensures
            (out.0@, text::texts(out.1@)) == depfile_in(self@.dialect, obj@),
    {
        self.driver.depfile(obj)
    }

    /// The `vcvarsall` argument whose environment the toolchain runs in.
    pub fn vcvars(&self) -> (out: Option<&'static str>)
        ensures
            text::opt(out) == vcvars_in(self@.dialect),
    {
        self.driver.vcvars()
    }
}

/// The first of some words, or `cc` where there is none.
pub open spec fn word_or_cc(argv: Seq<Seq<char>>, i: int) -> Seq<char> {
    if i < argv.len() {
        argv[i]
    } else {
        "cc"@
    }
}

/// Whether a program is a transparent compiler wrapper.
pub open spec fn is_wrapper(name: Seq<char>) -> bool {
    name == "ccache"@ || name == "sccache"@ || name == "distcc"@ || name == "icecc"@
}

/// The name of the actual tool, unwrapping a compiler wrapper once.
pub open spec fn tool_of(argv: Seq<Seq<char>>) -> Seq<char> {
    let name = word_or_cc(argv, 0);
    if is_wrapper(name) {
        text::last_part(word_or_cc(argv, 1), text::Cut::Slash)
    } else {
        text::last_part(name, text::Cut::Slash)
    }
}

/// Basename of the actual tool, unwrapping a transparent compiler wrapper
/// (`ccache`, `sccache`, ...) once.
pub fn real_tool(argv: &[String]) -> (out: String)
    ensures
        out@ == tool_of(text::texts(argv@)),
{
    let mut name = if argv.len() > 0 {
        argv[0].as_str()
    } else {
        "cc"
    };
    if text::same(name, "ccache") || text::same(name, "sccache") || text::same(name, "distcc")
        || text::same(name, "icecc") {
        name = if argv.len() > 1 {
            argv[1].as_str()
        } else {
            "cc"
        };
    }
    text::last_part_of(name, text::Cut::Slash)
}

/// The dialect that a tool of some name speaks.
pub open spec fn dialect_of(name: Seq<char>, arch: Arch, os: Os) -> Dialect {
    if name == "cl"@ || name == "clang-cl"@ || name == "icx"@ || name == "icl"@ {
        Dialect::Microsoft(arch)
    } else {
        Dialect::Gnu(arch, os)
    }
}

/// The toolchain that runs `cc`, in the dialect of the tool called `name`.
pub fn driver_for(cc: Vec<String>, name: &str, arch: Arch, os: Os) -> (out: Toolchain)
    ensures
        out@ == (ToolchainV { cc: text::texts(cc@), dialect: dialect_of(name@, arch, os) }),
{
    if text::same(name, "cl") || text::same(name, "clang-cl") || text::same(name, "icx")
        || text::same(name, "icl") {
        Toolchain { cc, driver: Box::new(Microsoft { arch }) }
    } else {
        Toolchain { cc, driver: Box::new(Gnu { arch, os }) }
    }
}

/// The compiler to use when none is configured: MSVC where Visual Studio was
/// found, otherwise the system's own.
pub open spec fn default_compiler_for(language: Language, visual_studio: bool) -> Seq<char> {
    if visual_studio {
        "cl"@
    } else {
        match language {
            Language::C => "cc"@,
            Language::Cpp => "c++"@,
        }
    }
}

/// The compiler to use when none is configured.
pub fn default_compiler(language: &Language, visual_studio: bool) -> (out: &'static str)
    ensures
        out@ == default_compiler_for(*language, visual_studio),
{
    if visual_studio {
        "cl"
    } else {
        match language {
            Language::C => "cc",
            Language::Cpp => "c++",
        }
    }
}

/// The words of a configured tool, or a default where it is absent or blank.
pub open spec fn tool_words(tool: Option<Seq<char>>, default: Seq<Seq<char>>) -> Seq<Seq<char>> {
    match tool {
        Some(s) => if text::trim(s).len() > 0 {
            text::white_words(s)
        } else {
            default
        },
        None => default,
    }
}

/// The words of a configured tool, or a default where it is absent or blank.
pub fn split_tool(tool: &Option<String>, default: &[String]) -> (out: Vec<String>)
    ensures
        text::texts(out@) == tool_words(text::opt(*tool), text::texts(default@)),
{
    match tool {
        Some(s) => {
            let kept = text::text_trim(s.as_str());
            if kept.as_str().is_empty() {
                text::copy_texts(default)
            } else {
                text::split_whitespace(s.as_str())
            }
        },
        None => text::copy_texts(default),
    }
}

/// The toolchain of some compile settings.
pub open spec fn toolchain_of(c: CompileV, language: Language, host: Host) -> ToolchainV {
    let cc = tool_words(c.cc, seq![default_compiler_for(language, host.visual_studio)]);
    ToolchainV {
        cc,
        dialect: dialect_of(
            tool_of(cc),
            match c.arch {
                Some(a) => a,
                None => Arch::Native,
            },
            host.os,
        ),
    }
}

/// Resolve a [`Toolchain`] from `compile`'s `cc` and `arch`, defaulting the
/// compiler by language when unset.
pub fn resolve(compile: &Compile, language: &Language, host: &Host) -> (out: Toolchain)
    ensures
        out@ == toolchain_of(compile@, *language, *host),
        out@.cc.len() > 0,
{
    let arch = match compile.arch {
        Some(a) => a,
        None => Arch::Native,
    };
    let default = text::one(default_compiler(language, host.visual_studio));
    let cc = split_tool(&compile.cc, default.as_slice());
    let name = real_tool(cc.as_slice());
    proof {
        law_resolved_names_a_program(compile@, *language, *host);
    }
    driver_for(cc, name.as_str(), arch, host.os)
}

proof fn lemma_trim_end_keeps(s: Seq<char>)
    ensures
        trim_end_witness(s),
    decreases s.len(),
{
    if s.len() > 0 && text::is_white(s.last()) {
        lemma_trim_end_keeps(s.drop_last());
        if text::trim_end(s).len() > 0 {
            let i = choose|i: int| 0 <= i < s.drop_last().len() && !text::is_white(s.drop_last()[i]);
            assert(!text::is_white(s[i]));
        }
    } else if s.len() > 0 {
        assert(!text::is_white(s[s.len() - 1]));
    }
}

/// Whether a text that is not blank holds a character that is not white.
spec fn trim_end_witness(s: Seq<char>) -> bool {
    text::trim_end(s).len() > 0 ==> exists|i: int| 0 <= i < s.len() && !text::is_white(#[trigger] s[i])
}

proof fn lemma_words_of_inked(s: Seq<char>, i: int)
    requires
        0 <= i < s.len(),
        !text::is_white(s[i]),
    ensures
        exists|k: int|
            0 <= k < text::split(s, text::Cut::White).len() && (#[trigger] text::split(
                s,
                text::Cut::White,
            )[k]).len() > 0,
    decreases s.len(),
{
    let front = text::split(s.drop_last(), text::Cut::White);
    let all = text::split(s, text::Cut::White);
    text::lemma_split_some(s.drop_last(), text::Cut::White);
    if i < s.len() - 1 {
        lemma_words_of_inked(s.drop_last(), i);
        let k = choose|k: int| 0 <= k < front.len() && (#[trigger] front[k]).len() > 0;
        if k < front.len() - 1 || text::is_white(s.last()) {
            assert(all[k] == front[k]);
        } else {
            assert(all[k].len() == front[k].len() + 1);
        }
    } else {
        assert(all[all.len() - 1].len() > 0);
    }
}

proof fn lemma_filled_some(v: Seq<Seq<char>>, k: int)
    requires
        0 <= k < v.len(),
        v[k].len() > 0,
    ensures
        text::filled(v).len() > 0,
    decreases v.len(),
{
    reveal(Seq::filter);
    if k < v.len() - 1 {
        lemma_filled_some(v.drop_last(), k);
    }
}

/// A tool that is not blank has at least one word.
pub proof fn lemma_tool_words_some(s: Seq<char>)
    requires
        text::trim(s).len() > 0,
    ensures
        text::white_words(s).len() > 0,
{
    let t = text::trim_start(s);
    lemma_trim_end_keeps(t);
    let i = choose|i: int| 0 <= i < t.len() && !text::is_white(#[trigger] t[i]);
    text::lemma_trim_start(s);
    let j = i + text::lead_len(s);
    assert(t[i] == s[j]);
    lemma_words_of_inked(s, j);
    let parts = text::split(s, text::Cut::White);
    let k = choose|k: int| 0 <= k < parts.len() && (#[trigger] parts[k]).len() > 0;
    lemma_filled_some(parts, k);
}

/// A resolved toolchain always names a program to run.
pub proof fn law_resolved_names_a_program(c: CompileV, language: Language, host: Host)
    ensures
        toolchain_of(c, language, host).cc.len() > 0,
{
    if let Some(s) = c.cc {
        if text::trim(s).len() > 0 {
            lemma_tool_words_some(s);
        }
    }
}

/// A gnu link asks for a static link once, whether the project or its flags say
/// so.
pub proof fn law_static_once(job: LinkJobV)
    requires
        job.static_flag == Some("-static"@),
    ensures
        gnu_static(job).contains("-static"@) != job.flags.contains("-static"@),
        gnu_static(job).len() <= 1,
{
    if !job.flags.contains("-static"@) {
        assert(gnu_static(job)[0] == "-static"@);
    }
}

/// The linker never sees a flag that only the driver understands and that has a
/// form for the linker: such a flag does not force the driver, and what it becomes
/// is not empty-worded.
pub proof fn law_translated_flags(d: Dialect, f: Seq<char>)
    ensures
        translated_in(d, f) is Some ==> !needs_driver_in(d, f),
        text::begins(f, "-Wl,"@) ==> (translated_in(d, f) matches Some(r) ==> forall|i: int|
            0 <= i < r.len() ==> (#[trigger] r[i]).len() > 0),
{
    text::lemma_filled(text::split(f.skip("-Wl,"@.len() as int), text::Cut::At(',')));
}

// ---------------------------------------------------------------------------
// The MSVC environment
// ---------------------------------------------------------------------------

/// The model of a list of pairs of strings.
pub open spec fn pairs(v: Seq<(String, String)>) -> Seq<(Seq<char>, Seq<char>)> {
    v.map_values(|p: (String, String)| (p.0@, p.1@))
}

/// The variables in a dump of `KEY=VALUE` lines. A line without `=` is no
/// variable.
pub open spec fn variables(ls: Seq<Seq<char>>) -> Seq<(Seq<char>, Seq<char>)>
    decreases ls.len(),
{
    if ls.len() == 0 {
        Seq::empty()
    } else {
        let front = variables(ls.drop_last());
        match text::cut_once(ls.last(), "="@) {
            Some(kv) => front.push(kv),
            None => front,
        }
    }
}

/// Split a vcvars `set` dump into `KEY=VALUE` pairs.
pub fn parse_set(dump: &str) -> (out: Vec<(String, String)>)
    ensures
        pairs(out@) == variables(text::lines(dump@)),
{
    let ls = text::text_lines(dump);
    let ghost all = text::lines(dump@);
    let mut out: Vec<(String, String)> = Vec::new();
    let mut i: usize = 0;
    proof {
        assert(all.take(0) =~= Seq::empty());
        assert(pairs(out@) =~= Seq::empty());
    }
    while i < ls.len()
        invariant
            i <= ls@.len(),
            all == text::texts(ls@),
            pairs(out@) == variables(all.take(i as int)),
        decreases ls@.len() - i,
    {
        proof {
            assert(all.take(i + 1).drop_last() =~= all.take(i as int));
            assert(all.take(i + 1).last() == ls@[i as int]@);
        }
        if let Some((k, v)) = text::split_once(ls[i].as_str(), "=") {
            let ghost before = out@;
            let ghost kv = (k@, v@);
            out.push((k, v));
            proof {
                assert(pairs(out@) =~= pairs(before).push(kv));
            }
        }
        i += 1;
    }
    proof {
        assert(all.take(i as int) =~= all);
    }
    out
}

/// Where `vswhere` is installed, below one of the program directories.
pub open spec fn vswhere_below(dir: Seq<char>) -> Seq<char> {
    paths::joined(
        paths::joined(paths::joined(dir, "Microsoft Visual Studio"@), "Installer"@),
        "vswhere.exe"@,
    )
}

/// Where `vswhere` is installed, below one of the program directories.
pub fn vswhere_path(dir: &str) -> (out: String)
    ensures
        out@ == vswhere_below(dir@),
{
    let a = paths::join(dir, "Microsoft Visual Studio");
    let b = paths::join(a.as_str(), "Installer");
    paths::join(b.as_str(), "vswhere.exe")
}

/// The `vswhere` to run: the first candidate that is a file, or whatever the
/// search path finds.
pub open spec fn vswhere_choice(candidates: Seq<Seq<char>>, is_file: Seq<bool>) -> Seq<char>
    decreases candidates.len(),
{
    if candidates.len() == 0 || is_file.len() == 0 {
        "vswhere.exe"@
    } else if is_file[0] {
        candidates[0]
    } else {
        vswhere_choice(candidates.skip(1), is_file.skip(1))
    }
}

/// The `vswhere` to run, from the candidates and whether each is a file.
pub fn choose_vswhere(candidates: &[String], is_file: &[bool]) -> (out: String)
    ensures
        out@ == vswhere_choice(text::texts(candidates@), is_file@),
{
    let ghost all = text::texts(candidates@);
    let mut i: usize = 0;
    proof {
        assert(all.skip(0) =~= all);
        assert(is_file@.skip(0) =~= is_file@);
    }
    while i < candidates.len() && i < is_file.len()
        invariant
            i <= candidates@.len(),
            i <= is_file@.len(),
            all == text::texts(candidates@),
            vswhere_choice(all, is_file@) == vswhere_choice(
                all.skip(i as int),
                is_file@.skip(i as int),
            ),
        decreases candidates@.len() - i,
    {
        proof {
            assert(all.skip(i as int)[0] == candidates@[i as int]@);
            assert(all.skip(i as int).skip(1) =~= all.skip(i + 1));
            assert(is_file@.skip(i as int).skip(1) =~= is_file@.skip(i + 1));
        }
        if is_file[i] {
            return candidates[i].clone();
        }
        i += 1;
    }
    "vswhere.exe".to_owned()
}

/// What `vswhere` is asked: the latest installation that holds the VC tools.
pub open spec fn vswhere_question() -> Seq<Seq<char>> {
    seq![
        "-latest"@,
        "-products"@,
        "*"@,
        "-requires"@,
        "Microsoft.VisualStudio.Component.VC.Tools.x86.x64"@,
        "-property"@,
        "installationPath"@,
    ]
}

/// What `vswhere` is asked.
pub fn vswhere_args() -> (out: Vec<String>)
    ensures
        text::texts(out@) == vswhere_question(),
{
    let mut out = two("-latest", "-products");
    text::push_text(&mut out, "*");
    text::push_text(&mut out, "-requires");
    text::push_text(&mut out, "Microsoft.VisualStudio.Component.VC.Tools.x86.x64");
    text::push_text(&mut out, "-property");
    text::push_text(&mut out, "installationPath");
    out
}

/// The installation `vswhere` printed, if it found one.
pub open spec fn installation(answer: Seq<char>) -> Option<Seq<char>> {
    if text::trim(answer).len() > 0 {
        Some(text::trim(answer))
    } else {
        None
    }
}

/// The installation `vswhere` printed, if it found one.
pub fn msvc_install(answer: &str) -> (out: Option<String>)
    ensures
        text::opt(out) == installation(answer@),
{
    let install = text::text_trim(answer);
    if install.as_str().is_empty() {
        None
    } else {
        Some(install)
    }
}

/// The directory of an installation that holds `vcvarsall.bat`.
pub open spec fn vcvars_dir_of(install: Seq<char>) -> Seq<char> {
    paths::joined(paths::joined(paths::joined(install, "VC"@), "Auxiliary"@), "Build"@)
}

/// The directory of an installation that holds `vcvarsall.bat`.
pub fn vcvars_dir(install: &str) -> (out: String)
    ensures
        out@ == vcvars_dir_of(install@),
{
    let a = paths::join(install, "VC");
    let b = paths::join(a.as_str(), "Auxiliary");
    paths::join(b.as_str(), "Build")
}

/// The command that prints the environment of a target, run in the directory of
/// `vcvarsall.bat` so that nothing has to be quoted.
pub open spec fn vcvars_command_for(arch: Arch) -> Seq<Seq<char>> {
    seq!["cmd"@, "/c"@, "vcvarsall.bat"@, vcvars_target_of(arch), "&&"@, "set"@]
}

/// The command that prints the environment of a target.
pub fn vcvars_command(arch: Arch) -> (out: Vec<String>)
    ensures
        text::texts(out@) == vcvars_command_for(arch),
{
    let mut out = two("cmd", "/c");
    text::push_text(&mut out, "vcvarsall.bat");
    text::push_text(&mut out, vcvars_target(arch));
    text::push_text(&mut out, "&&");
    text::push_text(&mut out, "set");
    out
}

/// Which of the cached environments a target uses: the native one is the 64 bit
/// one.
pub open spec fn env_slot_of(arch: Arch) -> int {
    match arch {
        Arch::Native | Arch::X86_64 => 0,
        Arch::X86 => 1,
        Arch::Arm64 => 2,
    }
}

/// Which of the cached environments a target uses.
pub fn env_slot(arch: Arch) -> (out: usize)
    ensures
        out == env_slot_of(arch),
{
    match arch {
        Arch::Native | Arch::X86_64 => 0,
        Arch::X86 => 1,
        Arch::Arm64 => 2,
    }
}

/// Two targets share a cached environment exactly when `vcvarsall` is given the
/// same argument for both.
pub proof fn law_env_slots(a: Arch, b: Arch)
    ensures
        env_slot_of(a) == env_slot_of(b) <==> vcvars_target_of(a) == vcvars_target_of(b),
{
    reveal_strlit("x86");
    reveal_strlit("x64");
    reveal_strlit("arm64");
    assert("x86"@[1] == '8');
    assert("x64"@[1] == '6');
    assert("arm64"@.len() == 5);
}

/// The value of the search path in a captured environment, under any spelling of
/// its name.
pub open spec fn search_path(vars: Seq<(Seq<char>, Seq<char>)>) -> Option<Seq<char>>
    decreases vars.len(),
{
    if vars.len() == 0 {
        None
    } else if text::lower(vars[0].0) == "path"@ {
        Some(vars[0].1)
    } else {
        search_path(vars.skip(1))
    }
}

/// The value of the search path in a captured environment.
pub fn captured_path(vars: &Vec<(String, String)>) -> (out: Option<String>)
    ensures
        text::opt(out) == search_path(pairs(vars@)),
{
    let ghost all = pairs(vars@);
    let mut i: usize = 0;
    proof {
        assert(all.skip(0) =~= all);
    }
    while i < vars.len()
        invariant
            i <= vars@.len(),
            all == pairs(vars@),
            search_path(all) == search_path(all.skip(i as int)),
        decreases vars@.len() - i,
    {
        let name = text::to_ascii_lowercase(vars[i].0.as_str());
        proof {
            assert(all.skip(i as int)[0] == (vars@[i as int].0@, vars@[i as int].1@));
            assert(all.skip(i as int).skip(1) =~= all.skip(i + 1));
        }
        if text::same(name.as_str(), "path") {
            return Some(vars[i].1.clone());
        }
        i += 1;
    }
    None
}

/// Whether a search path, in lower case, leads to the VC tools.
pub open spec fn leads_to_tools(path: Seq<char>) -> bool {
    text::has_within(path, "vc\\tools"@) || text::has_within(path, "vc/tools"@)
}

/// Whether a search path leads to the VC tools.
pub fn path_has_tools(path: &str) -> (res: bool)
    ensures
        res == leads_to_tools(proj_parse::lowercase(path@)),
{
    let low = proj_parse::lowercase_of(path);
    text::find_text(low.as_str(), "vc\\tools").is_some() || text::find_text(
        low.as_str(),
        "vc/tools",
    ).is_some()
}

/// What was found out while the environment of MSVC is looked for.
#[derive(Debug)]
pub enum MsvcEvent {
    /// Nothing yet. The candidates for `vswhere`, and which of them are files.
    Begin { candidates: Vec<String>, is_file: Vec<bool> },
    /// What `vswhere` printed, if it could be run.
    Answered(Option<String>),
    /// Whether an installation has its `vcvarsall.bat`.
    Looked { install: String, there: bool },
    /// What the variables were, if `vcvarsall.bat` could be run.
    Dumped(Option<String>),
}

/// The model of an [`MsvcEvent`].
pub enum MsvcEventV {
    Begin { candidates: Seq<Seq<char>>, is_file: Seq<bool> },
    Answered(Option<Seq<char>>),
    Looked { install: Seq<char>, there: bool },
    Dumped(Option<Seq<char>>),
}

impl View for MsvcEvent {
    type V = MsvcEventV;

    open spec fn view(&self) -> MsvcEventV {
        match *self {
            MsvcEvent::Begin { candidates, is_file } => MsvcEventV::Begin {
                candidates: text::texts(candidates@),
                is_file: is_file@,
            },
            MsvcEvent::Answered(a) => MsvcEventV::Answered(text::opt(a)),
            MsvcEvent::Looked { install, there } => MsvcEventV::Looked { install: install@, there },
            MsvcEvent::Dumped(d) => MsvcEventV::Dumped(text::opt(d)),
        }
    }
}

/// What to do next to find the environment of MSVC.
#[derive(Debug)]
pub enum MsvcAction {
    /// Run `vswhere`.
    Ask { program: String, args: Vec<String> },
    /// See whether a file is there, in an installation.
    Look { install: String, file: String },
    /// Run a command in a directory.
    Run { dir: String, command: Vec<String> },
    /// Nothing: these are the variables.
    Found(Vec<(String, String)>),
    /// Nothing: there is no such environment.
    GiveUp,
}

/// The model of an [`MsvcAction`].
pub enum MsvcActionV {
    Ask { program: Seq<char>, args: Seq<Seq<char>> },
    Look { install: Seq<char>, file: Seq<char> },
    Run { dir: Seq<char>, command: Seq<Seq<char>> },
    Found(Seq<(Seq<char>, Seq<char>)>),
    GiveUp,
}

impl View for MsvcAction {
    type V = MsvcActionV;

    open spec fn view(&self) -> MsvcActionV {
        match *self {
            MsvcAction::Ask { program, args } => MsvcActionV::Ask {
                program: program@,
                args: text::texts(args@),
            },
            MsvcAction::Look { install, file } => MsvcActionV::Look {
                install: install@,
                file: file@,
            },
            MsvcAction::Run { dir, command } => MsvcActionV::Run {
                dir: dir@,
                command: text::texts(command@),
            },
            MsvcAction::Found(vars) => MsvcActionV::Found(pairs(vars@)),
            MsvcAction::GiveUp => MsvcActionV::GiveUp,
        }
    }
}

/// What an event leads to: `vswhere` is asked for an installation, the
/// installation is looked at for its `vcvarsall.bat`, and that is run for the
/// target, so that the tools are reachable from a shell that was not launched as a
/// Developer prompt.
pub open spec fn msvc_step(os: Os, arch: Arch, event: MsvcEventV) -> MsvcActionV {
    if os != Os::Windows {
        MsvcActionV::GiveUp
    } else {
        match event {
            MsvcEventV::Begin { candidates, is_file } => MsvcActionV::Ask {
                program: vswhere_choice(candidates, is_file),
                args: vswhere_question(),
            },
            MsvcEventV::Answered(Some(answer)) => match installation(answer) {
                Some(install) => MsvcActionV::Look {
                    install,
                    file: paths::joined(vcvars_dir_of(install), "vcvarsall.bat"@),
                },
                None => MsvcActionV::GiveUp,
            },
            MsvcEventV::Looked { install, there } => if there {
                MsvcActionV::Run { dir: vcvars_dir_of(install), command: vcvars_command_for(arch) }
            } else {
                MsvcActionV::GiveUp
            },
            MsvcEventV::Dumped(Some(dump)) => MsvcActionV::Found(variables(text::lines(dump))),
            _ => MsvcActionV::GiveUp,
        }
    }
}

/// Decide what to do next to capture the environment `vcvarsall` sets for a
/// target.
pub fn detect_msvc_env(os: Os, arch: Arch, event: &MsvcEvent) -> (out: MsvcAction)
    ensures
        out@ == msvc_step(os, arch, event@),
{
    match os {
        Os::Windows => {},
        _ => return MsvcAction::GiveUp,
    }
    match event {
        MsvcEvent::Begin { candidates, is_file } => MsvcAction::Ask {
            program: choose_vswhere(candidates.as_slice(), is_file.as_slice()),
            args: vswhere_args(),
        },
        MsvcEvent::Answered(Some(answer)) => match msvc_install(answer.as_str()) {
            Some(install) => {
                let dir = vcvars_dir(install.as_str());
                let file = paths::join(dir.as_str(), "vcvarsall.bat");
                MsvcAction::Look { install, file }
            },
            None => MsvcAction::GiveUp,
        },
        MsvcEvent::Looked { install, there } => if *there {
            MsvcAction::Run {
                dir: vcvars_dir(install.as_str()),
                command: vcvars_command(arch),
            }
        } else {
            MsvcAction::GiveUp
        },
        MsvcEvent::Dumped(Some(dump)) => MsvcAction::Found(parse_set(dump.as_str())),
        MsvcEvent::Answered(None) | MsvcEvent::Dumped(None) => MsvcAction::GiveUp,
    }
}

/// What is reported of a capture, for debugging.
pub open spec fn capture_lines(
    arch: Arch,
    install: Seq<char>,
    vars: Seq<(Seq<char>, Seq<char>)>,
) -> Seq<Seq<char>> {
    seq![
        "Conjure: Ran cmd /c vcvarsall.bat "@ + vcvars_target_of(arch) + " && set in "@
            + vcvars_dir_of(install),
        "Conjure: MSVC install = "@ + install,
        "Conjure: "@ + text::decimal(vars.len()) + " env vars captured"@,
        match search_path(vars) {
            Some(path) => "Conjure: captured PATH has cl.exe dir = "@ + (if leads_to_tools(
                proj_parse::lowercase(path),
            ) {
                "true"@
            } else {
                "false"@
            }),
            None => "Conjure: No PATH captured from vcvars!"@,
        },
    ]
}

/// The lines that report a capture, for debugging.
pub fn capture_report(arch: Arch, install: &str, vars: &Vec<(String, String)>) -> (out: Vec<String>)
    ensures
        text::texts(out@) == capture_lines(arch, install@, pairs(vars@)),
{
    let dir = vcvars_dir(install);
    let head = text::cat3(
        "Conjure: Ran cmd /c vcvarsall.bat ",
        vcvars_target(arch),
        " && set in ",
    );
    let first = text::cat(head.as_str(), dir.as_str());
    let second = text::cat("Conjure: MSVC install = ", install);
    let count = text::decimal_text(vars.len());
    let third = text::cat3("Conjure: ", count.as_str(), " env vars captured");
    let last = match captured_path(vars) {
        Some(path) => {
            let yes = if path_has_tools(path.as_str()) {
                "true"
            } else {
                "false"
            };
            text::cat("Conjure: captured PATH has cl.exe dir = ", yes)
        },
        None => "Conjure: No PATH captured from vcvars!".to_owned(),
    };
    let mut out = two(first.as_str(), second.as_str());
    text::push_text(&mut out, third.as_str());
    text::push_text(&mut out, last.as_str());
    proof {
        assert(pairs(vars@).len() == vars@.len());
        assert(text::texts(out@) =~= capture_lines(arch, install@, pairs(vars@)));
    }
    out
}

// ---------------------------------------------------------------------------
// What a toolchain is told, and what it says
// ---------------------------------------------------------------------------

/// How a gnu compiler and its archiver are told what to do.
pub proof fn law_gnu_speaks(arch: Arch, os: Os, s: Seq<char>, obj: Seq<char>, base: Seq<char>)
    ensures
        ({
            let d = Dialect::Gnu(arch, os);
            &&& obj_ext_in(d) == "o"@
            &&& std_args_in(d, s) == seq!["-std="@ + s]
            &&& include_arg_in(d, s) == "-I"@ + s
            &&& default_c_flags_in(d, Language::C).len() == 0
            &&& default_c_flags_in(d, Language::Cpp).len() == 0
            &&& compile_tail_in(d, s, obj) == seq!["-c"@, s, "-o"@, obj]
            &&& pic_flag_in(d) == Some("-fPIC"@)
            &&& static_flag_in(d) == "-static"@
            &&& arch == Arch::X86 ==> arch_flags_in(d) == seq!["-m32"@]
            &&& arch == Arch::X86_64 ==> arch_flags_in(d) == seq!["-m64"@]
            &&& arch == Arch::Native || arch == Arch::Arm64 ==> arch_flags_in(d).len() == 0
            &&& archive_name_in(d, base) == "lib"@ + base + ".a"@
            &&& vcvars_in(d) is None
        }),
{
}

/// How the MSVC compiler and its archiver are told what to do.
pub proof fn law_microsoft_speaks(arch: Arch, s: Seq<char>, obj: Seq<char>, base: Seq<char>)
    ensures
        ({
            let d = Dialect::Microsoft(arch);
            &&& obj_ext_in(d) == "obj"@
            &&& std_args_in(d, s) == seq!["/std:"@ + s]
            &&& include_arg_in(d, s) == "/I"@ + s
            &&& default_c_flags_in(d, Language::C) == seq!["/nologo"@]
            &&& default_c_flags_in(d, Language::Cpp) == seq!["/nologo"@, "/EHsc"@]
            &&& compile_tail_in(d, s, obj) == seq!["/c"@, s, "/Fo:"@ + obj]
            &&& pic_flag_in(d) is None
            &&& static_flag_in(d) == "/MT"@
            &&& arch_flags_in(d).len() == 0
            &&& archive_name_in(d, base) == base + ".lib"@
            &&& arch == Arch::X86 ==> vcvars_in(d) == Some("x86"@)
            &&& arch == Arch::Arm64 ==> vcvars_in(d) == Some("arm64"@)
            &&& arch == Arch::Native || arch == Arch::X86_64 ==> vcvars_in(d) == Some("x64"@)
        }),
{
}

/// The file that a compiler is told to write an object's dependencies to is the one
/// that is read afterwards, it lies beside the object, and gnu compilers are asked
/// for the headers they were given by the user.
pub proof fn law_depfile_is_the_one_that_is_read(d: Dialect, obj: Seq<char>)
    ensures
        ({
            let (file, args) = depfile_in(d, obj);
            &&& args.len() > 0 && args.last() == file
            &&& text::begins(file, obj) && file != obj
            &&& d is Gnu ==> args == seq!["-MMD"@, "-MF"@, file]
            &&& d is Microsoft ==> args == seq!["/sourceDependencies"@, file]
        }),
{
    reveal_strlit(".d");
    reveal_strlit(".json");
    text::law_begins_and_ends(obj, ".d"@);
    text::law_begins_and_ends(obj, ".json"@);
    assert((obj + ".d"@).len() > obj.len());
    assert((obj + ".json"@).len() > obj.len());
}

/// An archive is made of all objects, in order, and of nothing else; a gnu archive
/// is then indexed.
pub proof fn law_archive_holds_every_object(d: Dialect, out: Seq<char>, objects: Seq<Seq<char>>)
    ensures
        ({
            let steps = archive_in(d, out, objects);
            let argv = steps[0].1;
            &&& argv.len() == objects.len() + 3
            &&& argv.skip(3) == objects
            &&& d is Gnu ==> steps.len() == 2 && argv.take(3) == seq!["ar"@, "rcs"@, out]
                && steps[1].1 == seq!["ranlib"@, out]
            &&& d is Microsoft ==> steps.len() == 1 && argv.take(3) == seq![
                "lib.exe"@,
                "/nologo"@,
                "/OUT:"@ + out,
            ]
        }),
{
    let argv = archive_in(d, out, objects)[0].1;
    assert(argv.skip(3) =~= objects);
    if d is Gnu {
        assert(argv.take(3) =~= seq!["ar"@, "rcs"@, out]);
    } else {
        assert(argv.take(3) =~= seq!["lib.exe"@, "/nologo"@, "/OUT:"@ + out]);
    }
}

/// The compiler of a project is the one it names, word for word, or that of its
/// language where it names none; it speaks as MSVC does exactly where its program,
/// behind a compiler cache and without its directory, is one of those that do, and
/// it is told the architecture that the project asks for.
pub proof fn law_compiler_of_a_project(c: CompileV, language: Language, host: Host)
    ensures
        ({
            let tc = toolchain_of(c, language, host);
            let named = c.cc is Some && text::trim(c.cc->0).len() > 0;
            let program = if tc.cc[0] == "ccache"@ || tc.cc[0] == "sccache"@ || tc.cc[0] == "distcc"@
                || tc.cc[0] == "icecc"@ {
                if tc.cc.len() > 1 {
                    tc.cc[1]
                } else {
                    "cc"@
                }
            } else {
                tc.cc[0]
            };
            let name = text::last_part(program, text::Cut::Slash);
            let arch = match c.arch {
                Some(a) => a,
                None => Arch::Native,
            };
            let microsoft = name == "cl"@ || name == "clang-cl"@ || name == "icx"@ || name == "icl"@;
            &&& named ==> tc.cc == text::white_words(c.cc->0)
            &&& !named && host.visual_studio ==> tc.cc == seq!["cl"@]
            &&& !named && !host.visual_studio && language == Language::C ==> tc.cc == seq!["cc"@]
            &&& !named && !host.visual_studio && language == Language::Cpp ==> tc.cc == seq!["c++"@]
            &&& microsoft ==> tc.dialect == Dialect::Microsoft(arch)
            &&& !microsoft ==> tc.dialect == Dialect::Gnu(arch, host.os)
        }),
{
    law_resolved_names_a_program(c, language, host);
}

/// A configured tool is taken word for word, and the default only where none is
/// configured.
pub proof fn law_configured_tools_win(tool: Option<Seq<char>>, default: Seq<Seq<char>>)
    ensures
        tool matches Some(s) ==> text::trim(s).len() > 0 ==> tool_words(tool, default)
            == text::white_words(s),
        tool is None ==> tool_words(tool, default) == default,
        tool matches Some(s) ==> text::trim(s).len() == 0 ==> tool_words(tool, default) == default,
{
}

/// Whether a word needs no quotes in a shell line.
pub open spec fn needs_no_quotes(w: Seq<char>) -> bool {
    w.len() > 0 && forall|i: int|
        0 <= i < w.len() ==> !text::is_white(#[trigger] w[i]) && w[i] != '"' && w[i] != '\'' && w[i]
            != '\\'
}

/// A text as it stands inside double quotes: quotes and backslashes behind a
/// backslash.
pub open spec fn inside_quotes(w: Seq<char>) -> Seq<char>
    decreases w.len(),
{
    if w.len() == 0 {
        Seq::empty()
    } else if w.last() == '"' || w.last() == '\\' {
        inside_quotes(w.drop_last()).push('\\').push(w.last())
    } else {
        inside_quotes(w.drop_last()).push(w.last())
    }
}

/// Whether `s` is a word as a shell line spells it: as it is, or in double quotes.
pub open spec fn shell_spells(s: Seq<char>, w: Seq<char>) -> bool {
    ||| needs_no_quotes(w) && s == w
    ||| w.len() > 0 && s == seq!['"'] + inside_quotes(w) + seq!['"']
}

proof fn lemma_word_step(x: Seq<char>, c: char)
    ensures
        word_state(x.push(c)) == word_step(word_state(x), c),
{
    assert(x.push(c).drop_last() =~= x);
}

proof fn lemma_plain_word(x: Seq<char>, w: Seq<char>)
    requires
        word_state(x).quote is None,
        !word_state(x).escaped,
        forall|i: int|
            0 <= i < w.len() ==> !text::is_white(#[trigger] w[i]) && w[i] != '"' && w[i] != '\''
                && w[i] != '\\',
    ensures
        word_state(x + w) == (WordState {
            current: word_state(x).current + w,
            ..word_state(x)
        }),
    decreases w.len(),
{
    let st = word_state(x);
    if w.len() == 0 {
        assert(x + w =~= x);
        assert(st.current + w =~= st.current);
    } else {
        let front = w.drop_last();
        assert forall|i: int| 0 <= i < front.len() implies !text::is_white(#[trigger] front[i])
            && front[i] != '"' && front[i] != '\'' && front[i] != '\\' by {
            assert(!text::is_white(w[i]));
        }
        lemma_plain_word(x, front);
        assert(!text::is_white(w[w.len() - 1]));
        assert(x + w =~= (x + front).push(w.last()));
        lemma_word_step(x + front, w.last());
        assert((st.current + front).push(w.last()) =~= st.current + w);
    }
}

proof fn lemma_quoted_inside(x: Seq<char>, w: Seq<char>)
    requires
        word_state(x).quote == Some('"'),
        !word_state(x).escaped,
    ensures
        word_state(x + inside_quotes(w)) == (WordState {
            current: word_state(x).current + w,
            ..word_state(x)
        }),
    decreases w.len(),
{
    let st = word_state(x);
    if w.len() == 0 {
        assert(x + inside_quotes(w) =~= x);
        assert(st.current + w =~= st.current);
    } else {
        let front = w.drop_last();
        let c = w.last();
        let y = x + inside_quotes(front);
        lemma_quoted_inside(x, front);
        assert((st.current + front).push(c) =~= st.current + w);
        if c == '"' || c == '\\' {
            assert(x + inside_quotes(w) =~= y.push('\\').push(c));
            lemma_word_step(y, '\\');
            lemma_word_step(y.push('\\'), c);
        } else {
            assert(x + inside_quotes(w) =~= y.push(c));
            lemma_word_step(y, c);
        }
    }
}

proof fn lemma_shell_gap(x: Seq<char>, g: Seq<char>)
    requires
        word_state(x).quote is None,
        !word_state(x).escaped,
        text::all_white(g),
        g.len() > 0,
    ensures
        word_state(x + g) == (WordState {
            done: words_of(x),
            current: Seq::empty(),
            quote: None,
            escaped: false,
        }),
    decreases g.len(),
{
    let front = g.drop_last();
    let c = g.last();
    assert(text::is_white(g[g.len() - 1]));
    assert(x + g =~= (x + front).push(c));
    lemma_word_step(x + front, c);
    if front.len() > 0 {
        assert forall|i: int| 0 <= i < front.len() implies text::is_white(#[trigger] front[i]) by {
            assert(text::is_white(g[i]));
        }
        lemma_shell_gap(x, front);
    } else {
        assert(x + front =~= x);
    }
    let st = word_state(x + front);
    assert(c != '\\' && c != '"' && c != '\'');
    assert(st.current.len() == 0 ==> st.current =~= Seq::empty());
}

/// The words of a line are those it was written with, in quotes or not: none is
/// lost, none is split at a blank that it holds.
pub proof fn law_shell_words_are_read_back(
    gaps: Seq<Seq<char>>,
    spelled: Seq<Seq<char>>,
    words: Seq<Seq<char>>,
    end: Seq<char>,
)
    requires
        gaps.len() == words.len(),
        spelled.len() == words.len(),
        forall|i: int| 0 <= i < words.len() ==> shell_spells(spelled[i], #[trigger] words[i]),
        forall|i: int| 0 <= i < gaps.len() ==> text::all_white(#[trigger] gaps[i]),
        forall|i: int| 0 < i < gaps.len() ==> (#[trigger] gaps[i]).len() > 0,
        text::all_white(end),
    ensures
        words_of(text::in_a_row(gaps, spelled) + end) == words,
{
    lemma_shell_words(gaps, spelled, words);
    let s = text::in_a_row(gaps, spelled);
    if end.len() > 0 {
        lemma_shell_gap(s, end);
    } else {
        assert(s + end =~= s);
    }
}

proof fn lemma_shell_words(
    gaps: Seq<Seq<char>>,
    spelled: Seq<Seq<char>>,
    words: Seq<Seq<char>>,
)
    requires
        gaps.len() == words.len(),
        spelled.len() == words.len(),
        forall|i: int| 0 <= i < words.len() ==> shell_spells(spelled[i], #[trigger] words[i]),
        forall|i: int| 0 <= i < gaps.len() ==> text::all_white(#[trigger] gaps[i]),
        forall|i: int| 0 < i < gaps.len() ==> (#[trigger] gaps[i]).len() > 0,
    ensures
        ({
            let s = text::in_a_row(gaps, spelled);
            &&& words_of(s) == words
            &&& word_state(s).quote is None
            &&& !word_state(s).escaped
        }),
    decreases words.len(),
{
    let none = Seq::<char>::empty();
    if words.len() == 0 {
        assert(words_of(none) =~= words);
    } else {
        let n = words.len() - 1;
        let fg = gaps.drop_last();
        let fs = spelled.drop_last();
        let fw = words.drop_last();
        assert forall|i: int| 0 <= i < fw.len() implies shell_spells(fs[i], #[trigger] fw[i]) by {
            assert(shell_spells(spelled[i], words[i]));
        }
        assert forall|i: int| 0 <= i < fg.len() implies text::all_white(#[trigger] fg[i]) by {
            assert(text::all_white(gaps[i]));
        }
        assert forall|i: int| 0 < i < fg.len() implies (#[trigger] fg[i]).len() > 0 by {
            assert(gaps[i].len() > 0);
        }
        lemma_shell_words(fg, fs, fw);
        let front = text::in_a_row(fg, fs);
        let g = gaps[n];
        let w = words[n];
        let s = spelled[n];
        assert(shell_spells(s, w));
        let x = front + g;
        if g.len() > 0 {
            lemma_shell_gap(front, g);
        } else {
            assert(n == 0);
            assert(front =~= none);
            assert(x =~= none);
            assert(fw =~= Seq::empty());
        }
        assert(word_state(x) == (WordState {
            done: fw,
            current: none,
            quote: None,
            escaped: false,
        }));
        assert(none + w =~= w);
        assert(fw.push(w) =~= words);
        if needs_no_quotes(w) && s == w {
            lemma_plain_word(x, w);
        } else {
            let y = x.push('"');
            let z = y + inside_quotes(w);
            lemma_word_step(x, '"');
            lemma_quoted_inside(y, w);
            lemma_word_step(z, '"');
            assert(x + s =~= z.push('"'));
        }
    }
}

proof fn lemma_no_plumbing(a: Seq<Seq<char>>, rest: Seq<Seq<char>>)
    requires
        forall|i: int|
            0 <= i < a.len() ==> !plumbing_option(#[trigger] a[i]) && !plumbing_assignment(a[i]),
    ensures
        without_plumbing(a + rest) == a + without_plumbing(rest),
    decreases a.len(),
{
    if a.len() > 0 {
        let b = a.skip(1);
        assert(!plumbing_option(a[0]) && !plumbing_assignment(a[0]));
        assert forall|i: int| 0 <= i < b.len() implies !plumbing_option(#[trigger] b[i])
            && !plumbing_assignment(b[i]) by {
            assert(!plumbing_option(a[i + 1]));
        }
        lemma_no_plumbing(b, rest);
        assert((a + rest)[0] == a[0]);
        assert((a + rest).skip(1) =~= b + rest);
        assert(seq![a[0]] + (b + without_plumbing(rest)) =~= a + without_plumbing(rest));
    } else {
        assert(a + rest =~= rest);
        assert(a + without_plumbing(rest) =~= without_plumbing(rest));
    }
}

/// Driver plumbing is dropped together with its argument, and everything around it
/// is kept.
pub proof fn law_plumbing_is_dropped(
    a: Seq<Seq<char>>,
    option: Seq<char>,
    argument: Seq<char>,
    b: Seq<Seq<char>>,
)
    requires
        forall|i: int|
            0 <= i < a.len() ==> !plumbing_option(#[trigger] a[i]) && !plumbing_assignment(a[i]),
        option == "-o"@ || option == "-plugin"@ || option == "-plugin-opt"@ || option
            == "-pass-through"@,
        !text::begins(argument, "-"@),
    ensures
        without_plumbing(a + seq![option, argument] + b) == a + without_plumbing(b),
{
    let rest = seq![option, argument] + b;
    assert(a + seq![option, argument] + b =~= a + rest);
    lemma_no_plumbing(a, rest);
    assert(rest[0] == option && rest[1] == argument);
    assert(rest.skip(2) =~= b);
}

proof fn lemma_anchor(a: Seq<Seq<char>>, t: Seq<char>, b: Seq<Seq<char>>)
    requires
        forall|i: int| 0 <= i < a.len() ==> #[trigger] a[i] != t,
    ensures
        token_at(a + seq![t] + b, t) == a.len(),
    decreases a.len(),
{
    let s = a + seq![t] + b;
    if a.len() > 0 {
        let r = a.skip(1);
        assert forall|i: int| 0 <= i < r.len() implies #[trigger] r[i] != t by {
            assert(a[i + 1] != t);
        }
        lemma_anchor(r, t, b);
        assert(a[0] != t);
        assert(s[0] == a[0]);
        assert(s.skip(1) =~= r + seq![t] + b);
    } else {
        assert(s[0] == t);
    }
}

proof fn lemma_linker_line(ls: Seq<Seq<char>>, k: int)
    requires
        0 <= k < ls.len(),
        runs_linker(words_of(ls[k])),
        forall|i: int| k < i < ls.len() ==> !runs_linker(words_of(#[trigger] ls[i])),
    ensures
        linker_line(ls) == Some(words_of(ls[k])),
    decreases ls.len(),
{
    if k < ls.len() - 1 {
        let front = ls.drop_last();
        assert(!runs_linker(words_of(ls[ls.len() - 1])));
        assert forall|i: int| k < i < front.len() implies !runs_linker(
            words_of(#[trigger] front[i]),
        ) by {
            assert(!runs_linker(words_of(ls[i])));
        }
        lemma_linker_line(front, k);
    }
}

/// What a driver puts around its inputs is read from the last line that runs a
/// linker: everything between the linker and the dummy input, and everything behind
/// the dummy input, word for word.
pub proof fn law_closure_surrounds_the_input(
    output: Seq<char>,
    k: int,
    linker: Seq<char>,
    before: Seq<Seq<char>>,
    behind: Seq<Seq<char>>,
)
    requires
        0 <= k < text::lines(output).len(),
        words_of(text::lines(output)[k]) == seq![linker] + before + seq!["/dev/null"@] + behind,
        runs_linker(words_of(text::lines(output)[k])),
        forall|i: int|
            k < i < text::lines(output).len() ==> !runs_linker(
                words_of(#[trigger] text::lines(output)[i]),
            ),
        forall|i: int|
            0 <= i < before.len() ==> !plumbing_option(#[trigger] before[i])
                && !plumbing_assignment(before[i]) && before[i] != "/dev/null"@,
        forall|i: int|
            0 <= i < behind.len() ==> !plumbing_option(#[trigger] behind[i])
                && !plumbing_assignment(behind[i]),
    ensures
        closure_of(output) == Ok::<(Seq<Seq<char>>, Seq<Seq<char>>), Seq<char>>((before, behind)),
{
    let ls = text::lines(output);
    lemma_linker_line(ls, k);
    let t = "/dev/null"@;
    let line = words_of(ls[k]);
    let toks = before + seq![t] + behind;
    assert(line.skip(1) =~= toks);
    reveal_strlit("/dev/null");
    reveal_strlit("-o");
    reveal_strlit("-plugin");
    reveal_strlit("-plugin-opt");
    reveal_strlit("-pass-through");
    reveal_strlit("-plugin-opt=");
    reveal_strlit("-plugin=");
    reveal_strlit("-pass-through=");
    assert(t[0] == '/');
    assert(t.take(12)[0] == '/' || t.len() < 12);
    assert(!plumbing_assignment(t)) by {
        assert("-plugin-opt="@[0] == '-' && "-plugin="@[0] == '-' && "-pass-through="@[0] == '-');
        if text::begins(t, "-plugin="@) {
            assert(t.take("-plugin="@.len() as int)[0] == t[0]);
        }
    }
    assert(!plumbing_option(t)) by {
        assert("-o"@[0] == '-' && "-plugin"@[0] == '-' && "-plugin-opt"@[0] == '-'
            && "-pass-through"@[0] == '-');
    }
    assert forall|i: int| 0 <= i < toks.len() implies !plumbing_option(#[trigger] toks[i])
        && !plumbing_assignment(toks[i]) by {
        if i < before.len() {
            assert(toks[i] == before[i]);
        } else if i > before.len() {
            assert(toks[i] == behind[i - before.len() - 1]);
        }
    }
    let none = Seq::<Seq<char>>::empty();
    lemma_no_plumbing(toks, none);
    assert(toks + none =~= toks);
    assert(toks + without_plumbing(none) =~= toks);
    lemma_anchor(before, t, behind);
    assert(toks.take(before.len() as int) =~= before);
    assert(toks.skip(before.len() as int + 1) =~= behind);
}

/// What runs a linker: a program called like one, wherever it lies, with or without
/// `.exe`.
pub proof fn law_linkers_are_known(
    dir: Seq<char>,
    name: Seq<char>,
    args: Seq<Seq<char>>,
)
    requires
        name == "ld"@ || name == "ld.gold"@ || name == "ld.lld"@ || name == "lld"@ || name
            == "mold"@ || name == "gold"@ || name == "collect2"@ || name == "link"@ || name
            == "lld-link"@,
    ensures
        runs_linker(seq![dir + "/"@ + name] + args),
        runs_linker(seq![dir + "/"@ + name + ".exe"@] + args),
        runs_linker(seq![name] + args),
{
    reveal_strlit("ld");
    reveal_strlit("ld.gold");
    reveal_strlit("ld.lld");
    reveal_strlit("lld");
    reveal_strlit("mold");
    reveal_strlit("gold");
    reveal_strlit("collect2");
    reveal_strlit("link");
    reveal_strlit("lld-link");
    reveal_strlit(".exe");
    reveal_strlit("/");
    let cut = text::Cut::Slash;
    assert forall|i: int| 0 <= i < name.len() implies !cut.cuts(#[trigger] name[i]) by {}
    let exe = name + ".exe"@;
    assert forall|i: int| 0 <= i < exe.len() implies !cut.cuts(#[trigger] exe[i]) by {
        if i < name.len() {
            assert(exe[i] == name[i]);
        }
    }
    text::law_last_part(dir, '/', name, cut);
    text::law_last_part(dir, '/', exe, cut);
    assert(dir + "/"@ + name =~= dir + seq!['/'] + name);
    assert(dir + "/"@ + name + ".exe"@ =~= dir + seq!['/'] + exe);
    text::law_begins_and_ends(".exe"@, name);
    assert(!text::ends(name, ".exe"@)) by {
        if text::ends(name, ".exe"@) {
            assert(name.skip(name.len() - 4)[3] == 'e');
            assert(name.last() == 'e');
        }
    }
    assert((seq![name] + args)[0] == name);
    assert((seq![dir + "/"@ + name] + args)[0] == dir + "/"@ + name);
    assert((seq![dir + "/"@ + name + ".exe"@] + args)[0] == dir + "/"@ + name + ".exe"@);
}

/// The variables of a dump are its `KEY=VALUE` lines, cut at their first `=`, in
/// order.
pub proof fn law_variables_are_read_back(ls: Seq<Seq<char>>, vars: Seq<(Seq<char>, Seq<char>)>)
    requires
        ls.len() == vars.len(),
        forall|i: int|
            0 <= i < ls.len() ==> #[trigger] ls[i] == vars[i].0 + seq!['='] + vars[i].1,
        forall|i: int, j: int|
            0 <= i < vars.len() && 0 <= j < vars[i].0.len() ==> #[trigger] vars[i].0[j] != '=',
    ensures
        variables(ls) == vars,
    decreases ls.len(),
{
    reveal_strlit("=");
    assert("="@ =~= seq!['=']);
    if ls.len() > 0 {
        let n = ls.len() - 1;
        let fl = ls.drop_last();
        let fv = vars.drop_last();
        assert forall|i: int| 0 <= i < fl.len() implies #[trigger] fl[i] == fv[i].0 + seq!['=']
            + fv[i].1 by {
            assert(ls[i] == vars[i].0 + seq!['='] + vars[i].1);
        }
        assert forall|i: int, j: int|
            0 <= i < fv.len() && 0 <= j < fv[i].0.len() implies #[trigger] fv[i].0[j] != '=' by {
            assert(vars[i].0[j] != '=');
        }
        law_variables_are_read_back(fl, fv);
        let line = ls[n];
        let (k, v) = vars[n];
        text::law_cut_once(line, "="@);
        assert(line.subrange(k.len() as int, k.len() as int + 1) =~= "="@);
        let (a, b) = text::cut_once(line, "="@)->0;
        assert(a.len() <= k.len()) by {
            if a.len() > k.len() {
                assert(line.subrange(k.len() as int, k.len() as int + "="@.len()) != "="@);
            }
        }
        assert(line == a + "="@ + b);
        assert(line == k + seq!['='] + v);
        if a.len() < k.len() {
            let m = a.len() as int;
            assert(line[m] == "="@[0]);
            assert(line[m] == k[m]);
            assert(vars[n].0[m] != '=');
        }
        assert(a.len() == k.len());
        assert(line.take(a.len() as int) =~= a);
        assert(line.take(k.len() as int) =~= k);
        assert(line.skip(a.len() as int + 1) =~= b);
        assert(line.skip(k.len() as int + 1) =~= v);
        assert(fv.push(vars[n]) =~= vars);
    } else {
        assert(vars =~= Seq::empty());
    }
}

/// A flag that the linker takes as it is passes unchanged, and what follows
/// `-Xlinker` is handed over as it is.
pub proof fn law_plain_flags_reach_the_linker(
    arch: Arch,
    os: Os,
    f: Seq<char>,
    rest: Seq<Seq<char>>,
)
    requires
        f.len() > 0,
        f[0] != '-' || (f.len() > 1 && (f[1] == 'l' || f[1] == 'L')),
    ensures
        ({
            let d = Dialect::Gnu(arch, os);
            &&& linker_form(d, seq![f] + rest) == seq![f] + linker_form(d, rest)
            &&& linker_form(d, seq!["-Xlinker"@, f] + rest) == seq![f] + linker_form(d, rest)
        }),
{
    let d = Dialect::Gnu(arch, os);
    reveal_strlit("-Wl,");
    reveal_strlit("-pthread");
    reveal_strlit("-rdynamic");
    reveal_strlit("-s");
    reveal_strlit("-m32");
    reveal_strlit("-m64");
    reveal_strlit("-mx32");
    reveal_strlit("-Bstatic");
    reveal_strlit("-Bdynamic");
    reveal_strlit("-Xlinker");
    assert("-Xlinker"@[0] == '-' && "-Xlinker"@[1] == 'X');
    assert("-Wl,"@[0] == '-' && "-Wl,"@[1] == 'W');
    assert("-pthread"@[0] == '-' && "-pthread"@[1] == 'p');
    assert("-rdynamic"@[0] == '-' && "-rdynamic"@[1] == 'r');
    assert("-s"@[0] == '-' && "-s"@[1] == 's');
    assert("-m32"@[0] == '-' && "-m32"@[1] == 'm');
    assert("-m64"@[0] == '-' && "-m64"@[1] == 'm');
    assert("-mx32"@[0] == '-' && "-mx32"@[1] == 'm');
    assert("-Bstatic"@[0] == '-' && "-Bstatic"@[1] == 'B');
    assert("-Bdynamic"@[0] == '-' && "-Bdynamic"@[1] == 'B');
    assert(!text::begins(f, "-Wl,"@)) by {
        if text::begins(f, "-Wl,"@) {
            assert(f.take(4)[1] == f[1] && f.take(4)[0] == f[0]);
        }
    }
    assert(translated_in(d, f) is None);
    lemma_linker_form(d, f, rest);
    let x = seq!["-Xlinker"@, f] + rest;
    assert(x[0] == "-Xlinker"@ && x[1] == f);
    assert(x.skip(2) =~= rest);
}

/// What only the driver understands reaches the linker in the linker's own form.
pub proof fn law_driver_flags_reach_the_linker(
    arch: Arch,
    os: Os,
    rest: Seq<Seq<char>>,
    passed: Seq<Seq<char>>,
)
    requires
        passed.len() > 0,
        forall|i: int| 0 <= i < passed.len() ==> (#[trigger] passed[i]).len() > 0,
        forall|i: int, j: int|
            0 <= i < passed.len() && 0 <= j < passed[i].len() ==> #[trigger] passed[i][j] != ',',
    ensures
        ({
            let d = Dialect::Gnu(arch, os);
            let behind = linker_form(d, rest);
            &&& linker_form(d, seq!["-Wl,"@ + text::join(passed, ","@)] + rest) == passed + behind
            &&& linker_form(d, seq!["-pthread"@] + rest) == seq!["-lpthread"@] + behind
            &&& linker_form(d, seq!["-rdynamic"@] + rest) == seq!["-export-dynamic"@] + behind
            &&& linker_form(d, seq!["-m32"@] + rest) == seq!["-m"@, "elf_i386"@] + behind
            &&& linker_form(d, seq!["-m64"@] + rest) == seq!["-m"@, "elf_x86_64"@] + behind
            &&& linker_form(d, seq!["-mx32"@] + rest) == seq!["-m"@, "elf32_x86_64"@] + behind
        }),
{
    let d = Dialect::Gnu(arch, os);
    reveal_strlit("-Wl,");
    reveal_strlit(",");
    reveal_strlit("-pthread");
    reveal_strlit("-rdynamic");
    reveal_strlit("-s");
    reveal_strlit("-m32");
    reveal_strlit("-m64");
    reveal_strlit("-mx32");
    reveal_strlit("-Xlinker");
    assert(","@ =~= seq![',']);
    assert("-Xlinker"@[1] == 'X' && "-Wl,"@[1] == 'W' && "-pthread"@[1] == 'p' && "-rdynamic"@[1]
        == 'r');
    assert("-s"@[1] == 's' && "-m32"@[1] == 'm' && "-m64"@[1] == 'm' && "-mx32"@[1] == 'm');
    assert("-m32"@[2] == '3' && "-m64"@[2] == '6' && "-mx32"@[2] == 'x');
    let w = "-Wl,"@ + text::join(passed, ","@);
    text::law_begins_and_ends("-Wl,"@, text::join(passed, ","@));
    text::law_split_undoes_join(passed, ',');
    text::lemma_filled(passed);
    assert(w[1] == 'W');
    assert(w.skip("-Wl,"@.len() as int) =~= text::join(passed, ","@));
    assert(translated_in(d, w) == Some(passed));
    lemma_linker_form(d, w, rest);
    assert("-pthread"@.take(4)[1] == 'p');
    assert("-rdynamic"@.take(4)[1] == 'r');
    assert("-m32"@.take(4)[1] == 'm');
    assert("-m64"@.take(4)[1] == 'm');
    assert("-mx32"@.take(4)[1] == 'm');
    lemma_linker_form(d, "-pthread"@, rest);
    lemma_linker_form(d, "-rdynamic"@, rest);
    lemma_linker_form(d, "-m32"@, rest);
    lemma_linker_form(d, "-m64"@, rest);
    lemma_linker_form(d, "-mx32"@, rest);
}

proof fn lemma_linker_form(d: Dialect, f: Seq<char>, rest: Seq<Seq<char>>)
    requires
        f != "-Xlinker"@,
    ensures
        linker_form(d, seq![f] + rest) == (match translated_in(d, f) {
            Some(r) => r,
            None => seq![f],
        }) + linker_form(d, rest),
{
    let x = seq![f] + rest;
    assert(x[0] == f);
    assert(x.skip(1) =~= rest);
}

/// A raw gnu link puts the objects and libraries where the driver would have put its
/// input: behind what comes before it, and before what comes behind it.
pub proof fn law_raw_link_surrounds_its_inputs(
    arch: Arch,
    os: Os,
    job: LinkJobV,
    before: Seq<Seq<char>>,
    behind: Seq<Seq<char>>,
)
    requires
        job.prefix.len() > 0,
    ensures
        ({
            let argv = raw_link_in(Dialect::Gnu(arch, os), job, before, behind);
            let n = 1 + before.len() as int;
            let m = n + job.objects.len() as int;
            &&& argv[0] == job.prefix[0]
            &&& argv.subrange(1, n) == before
            &&& argv.subrange(n, m) == job.objects
            &&& argv.subrange(m, m + job.libs.len()) == job.libs
            &&& argv.subrange(argv.len() - 2 - behind.len(), argv.len() - 2) == behind
            &&& argv[argv.len() - 2] == "-o"@
            &&& argv.last() == job.out
        }),
{
    let argv = raw_link_in(Dialect::Gnu(arch, os), job, before, behind);
    let n = 1 + before.len() as int;
    let m = n + job.objects.len() as int;
    assert(argv.subrange(1, n) =~= before);
    assert(argv.subrange(n, m) =~= job.objects);
    assert(argv.subrange(m, m + job.libs.len()) =~= job.libs);
    assert(argv.subrange(argv.len() - 2 - behind.len(), argv.len() - 2) =~= behind);
}

/// A driver is asked about the link it would do: with its own words, for the target
/// and the kind of link at hand, over the dummy input that the answer is cut at.
pub proof fn law_closure_query(arch: Arch, os: Os, cc: Seq<Seq<char>>, extra: Seq<Seq<char>>)
    ensures
        ({
            let q = closure_query_in(Dialect::Gnu(arch, os), cc, extra);
            &&& q is Some
            &&& q->0.take(cc.len() as int) == cc
            &&& q->0.last() == "/dev/null"@
            &&& q->0.contains("-###"@)
            &&& forall|i: int| 0 <= i < extra.len() ==> q->0.contains(#[trigger] extra[i])
            &&& arch == Arch::X86 ==> q->0.contains("-m32"@)
            &&& arch == Arch::X86_64 ==> q->0.contains("-m64"@)
            &&& closure_query_in(Dialect::Microsoft(arch), cc, extra) is None
        }),
{
    let d = Dialect::Gnu(arch, os);
    let q = closure_query_in(d, cc, extra)->0;
    let a = arch_flags_in(d);
    assert(q.take(cc.len() as int) =~= cc);
    assert(q[q.len() - 4] == "-###"@);
    assert forall|i: int| 0 <= i < extra.len() implies q.contains(#[trigger] extra[i]) by {
        assert(q[cc.len() + a.len() + i] == extra[i]);
    }
    if arch == Arch::X86 || arch == Arch::X86_64 {
        assert(q[cc.len() as int] == a[0]);
    }
}

/// Looking for the MSVC environment: the batch file is run in the directory in which
/// it was found, for the architecture that is built for, and its variables are
/// printed behind it; what is printed is what is found. Off Windows nothing is asked,
/// and whatever is not there ends the search.
pub proof fn law_msvc_environment(
    os: Os,
    arch: Arch,
    event: MsvcEventV,
    answer: Seq<char>,
    dump: Seq<char>,
)
    ensures
        os != Os::Windows ==> msvc_step(os, arch, event) == MsvcActionV::GiveUp,
        os == Os::Windows && text::trim(answer).len() > 0 ==> ({
            let looks = msvc_step(os, arch, MsvcEventV::Answered(Some(answer)));
            &&& looks matches MsvcActionV::Look { install, file } && install == text::trim(answer)
                && ({
                let runs = msvc_step(os, arch, MsvcEventV::Looked { install, there: true });
                let gone = msvc_step(os, arch, MsvcEventV::Looked { install, there: false });
                &&& gone == MsvcActionV::GiveUp
                &&& runs matches MsvcActionV::Run { dir, command } && file == paths::joined(
                    dir,
                    "vcvarsall.bat"@,
                ) && dir == paths::joined(
                    paths::joined(paths::joined(install, "VC"@), "Auxiliary"@),
                    "Build"@,
                ) && command.len() == 6 && command[2] == "vcvarsall.bat"@ && command[5] == "set"@
                    && (arch == Arch::X86 ==> command[3] == "x86"@) && (arch == Arch::Arm64
                    ==> command[3] == "arm64"@) && (arch == Arch::Native || arch == Arch::X86_64
                    ==> command[3] == "x64"@)
            })
        }),
        os == Os::Windows ==> msvc_step(os, arch, MsvcEventV::Dumped(Some(dump)))
            == MsvcActionV::Found(variables(text::lines(dump))),
        msvc_step(os, arch, MsvcEventV::Answered(None)) == MsvcActionV::GiveUp,
        msvc_step(os, arch, MsvcEventV::Dumped(None)) == MsvcActionV::GiveUp,
        text::trim(answer).len() == 0 ==> msvc_step(os, arch, MsvcEventV::Answered(Some(answer)))
            == MsvcActionV::GiveUp,
{
}

/// The first candidate that is there is asked, or whichever the search path gives.
pub proof fn law_vswhere(candidates: Seq<Seq<char>>, is_file: Seq<bool>, k: int)
    requires
        candidates.len() == is_file.len(),
        0 <= k <= is_file.len(),
        forall|i: int| 0 <= i < k ==> !(#[trigger] is_file[i]),
    ensures
        k < is_file.len() && is_file[k] ==> vswhere_choice(candidates, is_file) == candidates[k],
        k == is_file.len() ==> vswhere_choice(candidates, is_file) == "vswhere.exe"@,
    decreases candidates.len(),
{
    if candidates.len() > 0 && k > 0 {
        assert(!is_file[0]);
        let rest = is_file.skip(1);
        assert forall|i: int| 0 <= i < k - 1 implies !(#[trigger] rest[i]) by {
            assert(!is_file[i + 1]);
        }
        law_vswhere(candidates.skip(1), rest, k - 1);
        assert(k < is_file.len() ==> rest[k - 1] == is_file[k]);
    }
}

/// What a compiler is asked about its linker: where it prints it, the same compiler
/// is told to print it, and what it prints is the linker, without the white space
/// around it. Where the linker is fixed, nothing is asked.
pub proof fn law_linker_is_asked_for(
    gnu: Dialect,
    microsoft: Dialect,
    cc: Seq<Seq<char>>,
    lead: Seq<char>,
    name: Seq<char>,
    tail: Seq<char>,
)
    requires
        gnu is Gnu,
        microsoft is Microsoft,
        text::all_white(lead) && text::all_white(tail),
        name.len() > 0 && !text::is_white(name[0]) && !text::is_white(name.last()),
    ensures
        linker_query_in(gnu, cc) == Some(cc.push("-print-prog-name=ld"@)),
        default_linker_in(gnu, lead + name + tail) == name,
        linker_query_in(microsoft, cc) is None,
        default_linker_in(microsoft, lead + name + tail) == "link.exe"@,
{
    assert(cc + seq!["-print-prog-name=ld"@] =~= cc.push("-print-prog-name=ld"@));
    text::law_trim(lead, name, tail);
}

/// A compiler that is asked for its link closure is told of the kind of link: a shared
/// library is one whether or not it is static, and a plain binary needs no word.
pub proof fn law_closure_is_asked_for_the_kind_of_link(job: LinkJobV)
    ensures
        closure_mode(job).contains("-shared"@) <==> job.shared,
        closure_mode(job).contains("-static"@) <==> !job.shared && job.static_flag is Some,
        closure_mode(job).len() <= 1,
{
    reveal_strlit("-shared");
    reveal_strlit("-static");
    assert("-shared"@[2] == 'h' && "-static"@[2] == 't');
    let m = closure_mode(job);
    if job.shared {
        assert(m[0] == "-shared"@);
    } else if job.static_flag is Some {
        assert(m[0] == "-static"@);
    }
}

/// `vswhere.exe` lies where its installer puts it, below a program directory.
pub proof fn law_where_vswhere_lies(dir: Seq<char>)
    ensures
        ({
            let studio = paths::joined(dir, "Microsoft Visual Studio"@);
            let installer = paths::joined(studio, "Installer"@);
            vswhere_below(dir) == paths::joined(installer, "vswhere.exe"@)
        }),
{
}

/// The search path of an environment is the value of its first variable that is
/// called `path` in some spelling; it has none where no variable is.
pub proof fn law_search_path(vars: Seq<(Seq<char>, Seq<char>)>)
    ensures
        search_path(vars) is None ==> forall|i: int|
            0 <= i < vars.len() ==> text::lower((#[trigger] vars[i]).0) != "path"@,
        search_path(vars) is Some ==> exists|i: int|
            0 <= i < vars.len() && text::lower((#[trigger] vars[i]).0) == "path"@ && search_path(
                vars,
            ) == Some(vars[i].1) && forall|j: int|
                0 <= j < i ==> text::lower((#[trigger] vars[j]).0) != "path"@,
    decreases vars.len(),
{
    if vars.len() > 0 && text::lower(vars[0].0) != "path"@ {
        let rest = vars.skip(1);
        law_search_path(rest);
        if search_path(rest) is Some {
            let i = choose|i: int|
                0 <= i < rest.len() && text::lower((#[trigger] rest[i]).0) == "path"@ && search_path(
                    rest,
                ) == Some(rest[i].1) && forall|j: int|
                    0 <= j < i ==> text::lower((#[trigger] rest[j]).0) != "path"@;
            assert(vars[i + 1] == rest[i]);
            assert forall|j: int| 0 <= j < i + 1 implies text::lower((#[trigger] vars[j]).0)
                != "path"@ by {
                if j > 0 {
                    assert(vars[j] == rest[j - 1]);
                }
            }
        } else {
            assert forall|j: int| 0 <= j < vars.len() implies text::lower((#[trigger] vars[j]).0)
                != "path"@ by {
                if j > 0 {
                    assert(vars[j] == rest[j - 1]);
                }
            }
        }
    } else if vars.len() > 0 {
        assert(search_path(vars) == Some(vars[0].1));
    }
}

/// A path leads to the tools where the tools' directory stands somewhere in it, in
/// either spelling of the separator.
pub proof fn law_path_leads_to_tools(a: Seq<char>, b: Seq<char>)
    ensures
        leads_to_tools(a + "vc\\tools"@ + b),
        leads_to_tools(a + "vc/tools"@ + b),
        leads_to_tools(a) ==> exists|i: int|
            0 <= i && i + 8 <= a.len() && (#[trigger] a.subrange(i, i + 8) == "vc\\tools"@
                || a.subrange(i, i + 8) == "vc/tools"@),
{
    reveal_strlit("vc\\tools");
    reveal_strlit("vc/tools");
    let x = "vc\\tools"@;
    let y = "vc/tools"@;
    assert(x.len() == 8 && y.len() == 8);
    text::law_has_within(a + x + b, x);
    text::law_has_within(a + y + b, y);
    assert((a + x + b).subrange(a.len() as int, a.len() + 8int) =~= x);
    assert((a + y + b).subrange(a.len() as int, a.len() + 8int) =~= y);
    text::law_has_within(a, x);
    text::law_has_within(a, y);
    if text::has_within(a, x) {
        let i = choose|i: int|
            0 <= i && i + x.len() <= a.len() && #[trigger] a.subrange(i, i + x.len()) == x;
        assert(a.subrange(i, i + 8) == x);
    } else if text::has_within(a, y) {
        let i = choose|i: int|
            0 <= i && i + y.len() <= a.len() && #[trigger] a.subrange(i, i + y.len()) == y;
        assert(a.subrange(i, i + 8) == y);
    }
}

/// What is reported of a captured environment: the call, the installation, how many
/// variables there are, and whether their search path leads to the tools.
pub proof fn law_captures_are_reported(
    arch: Arch,
    install: Seq<char>,
    vars: Seq<(Seq<char>, Seq<char>)>,
)
    ensures
        ({
            let said = capture_lines(arch, install, vars);
            &&& said.len() == 4
            &&& text::begins(said[0], "Conjure: Ran cmd /c vcvarsall.bat "@ + vcvars_target_of(arch))
            &&& text::ends(said[0], " && set in "@ + vcvars_dir_of(install))
            &&& said[1] == "Conjure: MSVC install = "@ + install
            &&& said[2] == "Conjure: "@ + text::decimal(vars.len()) + " env vars captured"@
            &&& search_path(vars) is None ==> said[3] == "Conjure: No PATH captured from vcvars!"@
            &&& search_path(vars) is Some && leads_to_tools(
                proj_parse::lowercase(search_path(vars)->0),
            ) ==> said[3] == "Conjure: captured PATH has cl.exe dir = "@ + "true"@
            &&& search_path(vars) is Some && !leads_to_tools(
                proj_parse::lowercase(search_path(vars)->0),
            ) ==> said[3] == "Conjure: captured PATH has cl.exe dir = "@ + "false"@
        }),
{
    let a = "Conjure: Ran cmd /c vcvarsall.bat "@ + vcvars_target_of(arch);
    let b = " && set in "@;
    let c = vcvars_dir_of(install);
    assert(a + b + c =~= a + (b + c));
    text::law_begins_and_ends(a, b + c);
    text::law_begins_and_ends(b + c, a);
}

} // verus!
