//! What a build shows: status lines, the commands it runs, and how a command that
//! failed is reported. Drawing them is left to the program around the library.
use vstd::prelude::*;
use owo_colors::OwoColorize;
use crate::diag;
use crate::diag::{Fault, FaultV};
use crate::text;
use crate::toolchain;

verus! {

// ---------------------------------------------------------------------------
// Colours
// ---------------------------------------------------------------------------

/// A text between the escape that selects a foreground colour and the one that
/// goes back to the default.
pub open spec fn coloured(code: Seq<char>, s: Seq<char>) -> Seq<char> {
    code + s + "\x1b[39m"@
}

/// A text between the escapes for bold and for plain.
pub open spec fn bolded(s: Seq<char>) -> Seq<char> {
    "\x1b[1m"@ + s + "\x1b[0m"@
}

/// `OwoColorize::bold`, displayed: the text between the escapes for bold and for
/// plain.
#[verifier::external_body]
pub(crate) fn bold(s: &str) -> (out: String)
    ensures
        out@ == bolded(s@),
{
    s.bold().to_string()
}

/// `OwoColorize::green`, displayed: the text between the escapes for green and for
/// the default colour.
#[verifier::external_body]
pub(crate) fn green(s: &str) -> (out: String)
    ensures
        out@ == coloured("\x1b[32m"@, s@),
{
    s.green().to_string()
}

/// `OwoColorize::red`, displayed: the text between the escapes for red and for the
/// default colour.
#[verifier::external_body]
pub(crate) fn red(s: &str) -> (out: String)
    ensures
        out@ == coloured("\x1b[31m"@, s@),
{
    s.red().to_string()
}

/// `OwoColorize::cyan`, displayed: the text between the escapes for cyan and for
/// the default colour.
#[verifier::external_body]
pub(crate) fn cyan(s: &str) -> (out: String)
    ensures
        out@ == coloured("\x1b[36m"@, s@),
{
    s.cyan().to_string()
}

/// `OwoColorize::blue`, displayed: the text between the escapes for blue and for
/// the default colour.
#[verifier::external_body]
pub(crate) fn blue(s: &str) -> (out: String)
    ensures
        out@ == coloured("\x1b[34m"@, s@),
{
    s.blue().to_string()
}

/// `OwoColorize::yellow`, displayed: the text between the escapes for yellow and
/// for the default colour.
#[verifier::external_body]
pub(crate) fn yellow(s: &str) -> (out: String)
    ensures
        out@ == coloured("\x1b[33m"@, s@),
{
    s.yellow().to_string()
}

/// `OwoColorize::purple`, displayed: the text between the escapes for magenta and
/// for the default colour.
#[verifier::external_body]
pub(crate) fn purple(s: &str) -> (out: String)
    ensures
        out@ == coloured("\x1b[35m"@, s@),
{
    s.purple().to_string()
}

// ---------------------------------------------------------------------------
// Status lines
// ---------------------------------------------------------------------------

/// Leading glyph for a status line.
#[derive(Clone, Copy, Debug, PartialEq, Eq, Structural)]
pub enum StepStatus {
    Success,
    Failure,
    Info,
}

/// The glyph of a status, in its colour and bold.
pub open spec fn glyph(status: StepStatus) -> Seq<char> {
    match status {
        StepStatus::Success => bolded(coloured("\x1b[32m"@, "✓"@)),
        StepStatus::Failure => bolded(coloured("\x1b[31m"@, "✗"@)),
        StepStatus::Info => bolded(coloured("\x1b[36m"@, "ℹ"@)),
    }
}

/// A message behind the glyph of its status, or bare where it has none.
pub open spec fn marked(status: Option<StepStatus>, msg: Seq<char>) -> Seq<char> {
    match status {
        Some(st) => glyph(st) + " "@ + msg,
        None => msg,
    }
}

/// Prefix `msg` with the glyph for `status`, or leave it bare when there is none.
pub fn mark(status: Option<&StepStatus>, msg: &str) -> (out: String)
    ensures
        out@ == marked(
            match status {
                Some(st) => Some(*st),
                None => None,
            },
            msg@,
        ),
{
    match status {
        Some(StepStatus::Success) => {
            let c = green("✓");
            let b = bold(c.as_str());
            text::cat3(b.as_str(), " ", msg)
        },
        Some(StepStatus::Failure) => {
            let c = red("✗");
            let b = bold(c.as_str());
            text::cat3(b.as_str(), " ", msg)
        },
        Some(StepStatus::Info) => {
            let c = cyan("ℹ");
            let b = bold(c.as_str());
            text::cat3(b.as_str(), " ", msg)
        },
        None => msg.to_owned(),
    }
}

/// The status of a step that worked out or not.
pub fn status_of(ok: bool) -> (out: StepStatus)
    ensures
        out == (if ok {
            StepStatus::Success
        } else {
            StepStatus::Failure
        }),
{
    if ok {
        StepStatus::Success
    } else {
        StepStatus::Failure
    }
}

/// The line that takes the place of a spinner around work that is no command.
pub open spec fn wrapped(ok: bool, header: Seq<char>) -> Seq<char> {
    if ok {
        "✓ "@ + header
    } else {
        "✗ "@ + header
    }
}

/// The line that takes the place of a spinner around work that is no command.
pub fn wrap(ok: bool, header: &str) -> (out: String)
    ensures
        out@ == wrapped(ok, header@),
{
    if ok {
        text::cat("✓ ", header)
    } else {
        text::cat("✗ ", header)
    }
}

/// A text made at least `width` characters wide by blanks behind it.
pub open spec fn padded(s: Seq<char>, width: nat) -> Seq<char>
    decreases width - s.len(),
{
    if s.len() >= width {
        s
    } else {
        padded(s.push(' '), width)
    }
}

/// The label of one of several concurrent clones, padded to the same width for
/// every name of the batch, so that every row's bar begins in the same column.
pub fn fetch_label(name: &str, name_w: usize) -> (out: String)
    requires
        name_w + 10 <= usize::MAX,
    ensures
        out@ == padded("Fetching "@ + name@, (10 + name_w) as nat),
{
    let width: usize = 10 + name_w;
    let mut out = text::cat("Fetching ", name);
    let cs = text::chars_of(out.as_str());
    let mut n: usize = cs.len();
    while n < width
        invariant
            n == out@.len(),
            padded("Fetching "@ + name@, width as nat) == padded(out@, width as nat),
        decreases width - n,
    {
        out.push(' ');
        n += 1;
    }
    out
}

proof fn lemma_padded(s: Seq<char>, width: nat)
    ensures
        padded(s, width).len() == if s.len() >= width {
            s.len()
        } else {
            width
        },
    decreases width - s.len(),
{
    if s.len() < width {
        lemma_padded(s.push(' '), width);
    }
}

/// The labels of a batch are equally wide: for any two names no wider than the
/// width of the batch, the bars begin in the same column.
pub proof fn law_labels_line_up(a: Seq<char>, b: Seq<char>, name_w: nat)
    requires
        a.len() <= name_w,
        b.len() <= name_w,
    ensures
        padded("Fetching "@ + a, 10 + name_w).len() == padded("Fetching "@ + b, 10 + name_w).len(),
{
    reveal_strlit("Fetching ");
    lemma_padded("Fetching "@ + a, 10 + name_w);
    lemma_padded("Fetching "@ + b, 10 + name_w);
}

// ---------------------------------------------------------------------------
// Commands
// ---------------------------------------------------------------------------

/// How much a build says of what it does.
#[derive(Debug)]
pub struct Verbosity {
    pub level: u8,
}

/// Set how much a build says: the commands it runs from one on, and their
/// environment from two on.
pub fn set_verbose(verbosity: &mut Verbosity, level: u8)
    ensures
        final(verbosity).level == level,
{
    verbosity.level = level;
}

/// A command as one line.
pub open spec fn command_line(args: Seq<Seq<char>>) -> Seq<char> {
    text::join(args, " "@)
}

/// The lines that show some variables.
pub open spec fn variable_lines(env: Seq<(Seq<char>, Seq<char>)>) -> Seq<Seq<char>> {
    env.map_values(|v: (Seq<char>, Seq<char>)| "  "@ + v.0 + "="@ + v.1)
}

/// What is shown before a command runs.
pub open spec fn shown(
    level: u8,
    dir: Seq<char>,
    args: Seq<Seq<char>>,
    env: Seq<(Seq<char>, Seq<char>)>,
) -> Seq<Seq<char>> {
    if level == 0 {
        Seq::empty()
    } else {
        seq!["(cd "@ + dir + " && "@ + command_line(args) + ")"@] + (if level > 1 {
            variable_lines(env)
        } else {
            Seq::empty()
        })
    }
}

/// The lines to show before a command runs.
pub fn command_lines(
    verbosity: &Verbosity,
    dir: &str,
    args: &[String],
    env: &Vec<(String, String)>,
) -> (out: Vec<String>)
    ensures
        text::texts(out@) == shown(
            verbosity.level,
            dir@,
            text::texts(args@),
            toolchain::pairs(env@),
        ),
{
    if verbosity.level == 0 {
        return text::none();
    }
    let joined = text::join_texts(args, " ");
    let head = text::cat3("(cd ", dir, " && ");
    let line = text::cat3(head.as_str(), joined.as_str(), ")");
    let mut out = text::one(line.as_str());
    let ghost first = text::texts(out@);
    let ghost want = variable_lines(toolchain::pairs(env@));
    if verbosity.level > 1 {
        let mut i: usize = 0;
        proof {
            assert(first + want.take(0) =~= first);
        }
        while i < env.len()
            invariant
                i <= env@.len(),
                want == variable_lines(toolchain::pairs(env@)),
                text::texts(out@) == first + want.take(i as int),
            decreases env@.len() - i,
        {
            let a = text::cat3("  ", env[i].0.as_str(), "=");
            let b = text::cat(a.as_str(), env[i].1.as_str());
            text::push_text(&mut out, b.as_str());
            proof {
                assert(toolchain::pairs(env@)[i as int] == (env@[i as int].0@, env@[i as int].1@));
                assert(want[i as int] == b@);
                assert((first + want.take(i as int)).push(b@) =~= first + want.take(i + 1));
            }
            i += 1;
        }
        proof {
            assert(want.take(i as int) =~= want);
        }
    } else {
        proof {
            assert(first + Seq::<Seq<char>>::empty() =~= first);
        }
    }
    out
}

/// Why a command could not be started.
pub open spec fn start_failure(args: Seq<Seq<char>>, reason: Seq<char>) -> FaultV {
    diag::hinted(
        "Failed to run `"@ + command_line(args) + "`: "@ + reason,
        "Is it in path?"@,
    )
}

/// Why a command could not be started.
pub fn spawn_fault(args: &[String], reason: &str) -> (out: Fault)
    ensures
        out@ == start_failure(text::texts(args@), reason@),
{
    let joined = text::join_texts(args, " ");
    let head = text::cat3("Failed to run `", joined.as_str(), "`: ");
    Fault::hinted(text::cat(head.as_str(), reason), "Is it in path?")
}

/// A number with its sign, in decimal.
pub open spec fn signed(n: int) -> Seq<char> {
    if n < 0 {
        "-"@ + text::decimal((-n) as nat)
    } else {
        text::decimal(n as nat)
    }
}

fn signed_text(n: i32) -> (out: String)
    ensures
        out@ == signed(n as int),
{
    let wide: i64 = n as i64;
    if wide < 0 {
        let size: i64 = -wide;
        let digits = text::decimal_text(size as usize);
        text::cat("-", digits.as_str())
    } else {
        text::decimal_text(n as usize)
    }
}

/// The code that stands for a command that has none: a signal ended it.
pub const ENDED_BY_SIGNAL: i32 = -1;

/// How a command that ran to its end is judged: nothing where it succeeded, else
/// the code it failed with. A command that a signal ended has no code of its own,
/// and failed with [`ENDED_BY_SIGNAL`].
pub fn exit_code(success: bool, code: Option<i32>) -> (out: Option<i32>)
    ensures
        out is None <==> success,
        !success && code is Some ==> out == code,
        !success && code is None ==> out == Some(ENDED_BY_SIGNAL),
{
    if success {
        None
    } else {
        match code {
            Some(c) => Some(c),
            None => Some(ENDED_BY_SIGNAL),
        }
    }
}

/// What failed where a command exited with a code, and the line above it.
pub open spec fn exit_failure(dir: Seq<char>, args: Seq<Seq<char>>, code: int) -> (
    Seq<char>,
    FaultV,
) {
    (
        "Failed to run `"@ + command_line(args) + "`"@,
        diag::hinted(
            "`"@ + command_line(args) + "` failed in "@ + dir + " with exit status: "@ + signed(code),
            "Check the output above for more information"@,
        ),
    )
}

/// What failed where a command exited with a code: the line above, and the fault.
pub fn exit_fault(dir: &str, args: &[String], code: i32) -> (out: (String, Fault))
    ensures
        (out.0@, out.1@) == exit_failure(dir@, text::texts(args@), code as int),
{
    let joined = text::join_texts(args, " ");
    let above = text::cat3("Failed to run `", joined.as_str(), "`");
    let a = text::cat3("`", joined.as_str(), "` failed in ");
    let b = text::cat3(a.as_str(), dir, " with exit status: ");
    let number = signed_text(code);
    let message = text::cat(b.as_str(), number.as_str());
    (above, Fault::hinted(message, "Check the output above for more information"))
}

/// A status line ends with its message, behind the glyph of its state in the state's
/// colour; without a state it is the message alone.
pub proof fn law_status_lines(msg: Seq<char>, a: StepStatus)
    ensures
        marked(None, msg) == msg,
        text::ends(marked(Some(a), msg), " "@ + msg),
        marked(Some(StepStatus::Success), msg) == "\x1b[1m\x1b[32m✓\x1b[39m\x1b[0m "@ + msg,
        marked(Some(StepStatus::Failure), msg) == "\x1b[1m\x1b[31m✗\x1b[39m\x1b[0m "@ + msg,
        marked(Some(StepStatus::Info), msg) == "\x1b[1m\x1b[36mℹ\x1b[39m\x1b[0m "@ + msg,
{
    reveal_strlit("\x1b[1m");
    reveal_strlit("\x1b[0m");
    reveal_strlit("\x1b[39m");
    reveal_strlit("\x1b[32m");
    reveal_strlit("\x1b[31m");
    reveal_strlit("\x1b[36m");
    reveal_strlit("✓");
    reveal_strlit("✗");
    reveal_strlit("ℹ");
    reveal_strlit(" ");
    reveal_strlit("\x1b[1m\x1b[32m✓\x1b[39m\x1b[0m ");
    reveal_strlit("\x1b[1m\x1b[31m✗\x1b[39m\x1b[0m ");
    reveal_strlit("\x1b[1m\x1b[36mℹ\x1b[39m\x1b[0m ");
    assert(glyph(StepStatus::Success) + " "@ =~= "\x1b[1m\x1b[32m✓\x1b[39m\x1b[0m "@);
    assert(glyph(StepStatus::Failure) + " "@ =~= "\x1b[1m\x1b[31m✗\x1b[39m\x1b[0m "@);
    assert(glyph(StepStatus::Info) + " "@ =~= "\x1b[1m\x1b[36mℹ\x1b[39m\x1b[0m "@);
    text::law_begins_and_ends(" "@ + msg, glyph(a));
    assert(glyph(a) + " "@ + msg =~= glyph(a) + (" "@ + msg));
}

/// What is shown of a command: nothing, or the line that would run it, and its
/// variables from the second level on, one to a line.
pub proof fn law_what_is_shown_of_a_command(
    dir: Seq<char>,
    args: Seq<Seq<char>>,
    env: Seq<(Seq<char>, Seq<char>)>,
    level: u8,
    i: int,
)
    ensures
        shown(0, dir, args, env).len() == 0,
        shown(1, dir, args, env) == seq!["(cd "@ + dir + " && "@ + text::join(args, " "@) + ")"@],
        level > 1 ==> ({
            let lines = shown(level, dir, args, env);
            &&& lines.len() == 1 + env.len()
            &&& lines[0] == shown(1, dir, args, env)[0]
            &&& 0 <= i < env.len() ==> lines[i + 1] == "  "@ + env[i].0 + "="@ + env[i].1
        }),
{
    let none = Seq::<Seq<char>>::empty();
    let one = seq!["(cd "@ + dir + " && "@ + command_line(args) + ")"@];
    assert(one + none =~= one);
}

/// A failure names the command as it was run, where, and how it ended.
pub proof fn law_failures_name_the_command(
    dir: Seq<char>,
    args: Seq<Seq<char>>,
    code: int,
    reason: Seq<char>,
)
    ensures
        exit_failure(dir, args, code).0 == "Failed to run `"@ + text::join(args, " "@) + "`"@,
        code >= 0 ==> exit_failure(dir, args, code).1.message == "`"@ + text::join(args, " "@)
            + "` failed in "@ + dir + " with exit status: "@ + text::decimal(code as nat),
        code < 0 ==> exit_failure(dir, args, code).1.message == "`"@ + text::join(args, " "@)
            + "` failed in "@ + dir + " with exit status: "@ + ("-"@ + text::decimal(
            (-code) as nat,
        )),
        start_failure(args, reason).message == "Failed to run `"@ + text::join(args, " "@) + "`: "@
            + reason,
{
}

/// A headline ends with its header, behind the mark of its outcome.
pub proof fn law_outcomes_are_marked(header: Seq<char>)
    ensures
        wrapped(true, header) == "✓ "@ + header,
        wrapped(false, header) == "✗ "@ + header,
        wrapped(true, header) != wrapped(false, header),
{
    reveal_strlit("✓ ");
    reveal_strlit("✗ ");
    assert(wrapped(true, header)[0] == '✓');
    assert(wrapped(false, header)[0] == '✗');
}

} // verus!
