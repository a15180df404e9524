//! Project scaffolding for `conjure new` and `conjure init`.
//!
//! A scaffold is a minimal but buildable C or C++ project: `src/` and `include/`
//! directories, a hello-world source, and the `conjure.kdl` manifest. The C++
//! source is chosen by standard, so a C++23 project gets the `import std;` form
//! instead of a preprocessor hello.
use vstd::prelude::*;
use crate::paths;
use crate::proj_parse::{Language, Project, ProjectV};
use crate::text;

verus! {

/// The source of a new C++ project.
pub const CPP_HELLO: &'static str =
    "#include <iostream>\n\nint main() {\n  std::cout << \"Hello, world!\\n\";\n  return 0;\n}\n";

/// The source of a new project in C++23 or later.
pub const CPP23_HELLO: &'static str =
    "import std;\n\nint main() {\n  std::println(\"Hello, world!\");\n  return 0;\n}\n";

/// The source of a new C project.
pub const C_HELLO: &'static str =
    "#include <stdio.h>\n\nint main(void) {\n  puts(\"Hello, world!\");\n  return 0;\n}\n";

/// The number that some decimal digits write, if they are all digits.
pub open spec fn digits_value(s: Seq<char>) -> Option<nat>
    decreases s.len(),
{
    if s.len() == 0 {
        Some(0)
    } else {
        match digits_value(s.drop_last()) {
            Some(n) => if '0' <= s.last() && s.last() <= '9' {
                Some(10 * n + (s.last() as nat - '0' as nat) as nat)
            } else {
                None
            },
            None => None,
        }
    }
}

/// The number a text writes: digits, behind a plus sign or none, below the bound
/// of a `u32`.
pub open spec fn number_in(s: Seq<char>) -> Option<u32> {
    let d = match text::after_prefix(s, "+"@) {
        Some(rest) => rest,
        None => s,
    };
    match digits_value(d) {
        Some(n) => if d.len() > 0 && n <= u32::MAX {
            Some(n as u32)
        } else {
            None
        },
        None => None,
    }
}

proof fn lemma_digits_stop(s: Seq<char>, n: int)
    requires
        0 <= n <= s.len(),
        digits_value(s.take(n)) is None,
    ensures
        digits_value(s) is None,
    decreases s.len() - n,
{
    if n < s.len() {
        assert(s.take(n + 1).drop_last() =~= s.take(n));
        lemma_digits_stop(s, n + 1);
    } else {
        assert(s.take(n) =~= s);
    }
}

proof fn lemma_digits_grow(s: Seq<char>, n: int)
    requires
        0 <= n <= s.len(),
        digits_value(s.take(n)) is Some,
        digits_value(s) is Some,
    ensures
        digits_value(s.take(n))->0 <= digits_value(s)->0,
    decreases s.len() - n,
{
    if n < s.len() {
        assert(s.take(n + 1).drop_last() =~= s.take(n));
        if digits_value(s.take(n + 1)) is None {
            lemma_digits_stop(s, n + 1);
        }
        lemma_digits_grow(s, n + 1);
    } else {
        assert(s.take(n) =~= s);
    }
}

fn parse_number(s: &str) -> (out: Option<u32>)
    ensures
        out == number_in(s@),
{
    let d = match text::strip_prefix(s, "+") {
        Some(rest) => rest,
        None => s.to_owned(),
    };
    let cs = text::chars_of(d.as_str());
    if cs.len() == 0 {
        return None;
    }
    let mut value: u64 = 0;
    let mut i: usize = 0;
    proof {
        assert(d@.take(0) =~= Seq::empty());
    }
    while i < cs.len()
        invariant
            cs@ == d@,
            i <= cs@.len(),
            cs@.len() > 0,
            number_in(s@) == (match digits_value(d@) {
                Some(n) => if d@.len() > 0 && n <= u32::MAX {
                    Some(n as u32)
                } else {
                    None
                },
                None => None::<u32>,
            }),
            digits_value(d@.take(i as int)) == Some(value as nat),
            value <= u32::MAX,
        decreases cs@.len() - i,
    {
        let c = cs[i];
        proof {
            assert(d@.take(i + 1).drop_last() =~= d@.take(i as int));
            assert(d@.take(i + 1).last() == c);
        }
        if c < '0' || '9' < c {
            proof {
                lemma_digits_stop(d@, i + 1);
            }
            return None;
        }
        value = 10 * value + (c as u64 - 48);
        if value > 0xffff_ffff {
            proof {
                if digits_value(d@) is Some {
                    lemma_digits_grow(d@, i + 1);
                }
            }
            return None;
        }
        i += 1;
    }
    proof {
        assert(d@.take(i as int) =~= d@);
    }
    Some(value as u32)
}

/// The major version in a `c++` or `gnu++` standard.
pub open spec fn major_of(s: Seq<char>) -> Option<u32> {
    match text::either(text::after_prefix(s, "gnu++"@), text::after_prefix(s, "c++"@)) {
        Some(v) => number_in(v),
        None => None,
    }
}

/// The major version of a `c++`/`gnu++` standard string, e.g. `c++23` gives 23.
pub fn std_major(s: &str) -> (out: Option<u32>)
    ensures
        out == major_of(s@),
{
    match text::strip_prefix(s, "gnu++") {
        Some(v) => parse_number(v.as_str()),
        None => match text::strip_prefix(s, "c++") {
            Some(v) => parse_number(v.as_str()),
            None => None,
        },
    }
}

/// Whether a standard is C++23 or later. Standards are named after the last two
/// digits of their year, and the first of them is C++98.
pub open spec fn since_cpp23(major: u32) -> bool {
    23 <= major < 98
}

/// Whether a project gets the `import std;` form: its standard is C++23 or later.
pub open spec fn wants_import(p: ProjectV) -> bool {
    p.compile matches Some(c) && c.standard matches Some(s) && major_of(s) matches Some(m)
        && since_cpp23(m)
}

/// What a new project consists of, apart from its manifest's text.
#[derive(Debug)]
pub struct Scaffold {
    /// The directories to make.
    pub dirs: Vec<String>,
    /// The source to write.
    pub source: String,
    /// What to write into it.
    pub contents: &'static str,
    /// The manifest, which is written last: a failure part way leaves a directory
    /// without one rather than a manifest that points at a half-made tree.
    pub manifest: String,
}

/// Lay out a project tree at `path`.
pub fn make_proj(path: &str, project: &Project) -> (out: Scaffold)
    ensures
        text::texts(out.dirs@) == seq![
            paths::joined(path@, "src"@),
            paths::joined(path@, "include"@),
        ],
        match project@.language {
            Language::Cpp => out.source@ == paths::joined(path@, "src/main.cpp"@)
                && out.contents@ == (if wants_import(project@) {
                CPP23_HELLO@
            } else {
                CPP_HELLO@
            }),
            Language::C => out.source@ == paths::joined(path@, "src/main.c"@) && out.contents@
                == C_HELLO@,
        },
        out.manifest@ == paths::joined(path@, "conjure.kdl"@),
{
    let src = paths::join(path, "src");
    let inc = paths::join(path, "include");
    let mut dirs = text::one(src.as_str());
    text::push_text(&mut dirs, inc.as_str());
    let manifest = paths::join(path, "conjure.kdl");
    match project.language {
        Language::Cpp => {
            let major = match &project.compile {
                Some(c) => match &c.standard {
                    Some(s) => std_major(s.as_str()),
                    None => None,
                },
                None => None,
            };
            let imports = match major {
                Some(m) => 23 <= m && m < 98,
                None => false,
            };
            let contents = if imports {
                CPP23_HELLO
            } else {
                CPP_HELLO
            };
            Scaffold { dirs, source: paths::join(path, "src/main.cpp"), contents, manifest }
        },
        Language::C => Scaffold {
            dirs,
            source: paths::join(path, "src/main.c"),
            contents: C_HELLO,
            manifest,
        },
    }
}

proof fn lemma_digits_of(s: Seq<char>)
    requires
        forall|i: int| 0 <= i < s.len() ==> '0' <= #[trigger] s[i] && s[i] <= '9',
    ensures
        digits_value(s) is Some,
        digits_value(s)->0 == text::decimal_value(s),
    decreases s.len(),
{
    if s.len() > 0 {
        let front = s.drop_last();
        assert forall|i: int| 0 <= i < front.len() implies '0' <= #[trigger] front[i] && front[i]
            <= '9' by {
            assert('0' <= s[i] && s[i] <= '9');
        }
        lemma_digits_of(front);
        assert('0' <= s[s.len() - 1] && s[s.len() - 1] <= '9');
    }
}

/// The standard `c++N` or `gnu++N` has the major version N, and a C standard has
/// none.
pub proof fn law_versions_of_standards(n: u32, s: Seq<char>)
    ensures
        major_of("c++"@ + text::decimal(n as nat)) == Some(n),
        major_of("gnu++"@ + text::decimal(n as nat)) == Some(n),
        s.len() > 1 && s[0] == 'c' && s[1] != '+' ==> major_of(s) is None,
{
    let d = text::decimal(n as nat);
    text::law_decimal(n as nat);
    lemma_digits_of(d);
    reveal_strlit("c++");
    reveal_strlit("gnu++");
    reveal_strlit("+");
    text::law_begins_and_ends("c++"@, d);
    text::law_begins_and_ends("gnu++"@, d);
    assert(!text::begins(d, "+"@)) by {
        if text::begins(d, "+"@) {
            assert(d.take(1)[0] == d[0]);
        }
    }
    let a = "c++"@ + d;
    assert(a[0] == 'c');
    assert(!text::begins(a, "gnu++"@)) by {
        if text::begins(a, "gnu++"@) {
            assert(a.take(5)[0] == a[0]);
        }
    }
    if s.len() > 1 && s[0] == 'c' && s[1] != '+' {
        if text::begins(s, "gnu++"@) {
            assert(s.take(5)[0] == s[0]);
        }
        if text::begins(s, "c++"@) {
            assert(s.take(3)[1] == s[1]);
        }
    }
}

/// A new C++ project imports the standard library as a module exactly from C++23 on;
/// earlier standards, the two of the last century's numbering among them, and
/// projects without a standard do not.
pub proof fn law_modules_begin_with_cpp23(p: ProjectV, n: u32)
    requires
        p.compile is Some,
        n < 100,
    ensures
        p.compile->0.standard is None ==> !wants_import(p),
        p.compile->0.standard == Some("c++"@ + text::decimal(n as nat)) ==> (wants_import(p) <==> 23
            <= n < 98),
        p.compile->0.standard == Some("gnu++"@ + text::decimal(n as nat)) ==> (wants_import(p)
            <==> 23 <= n < 98),
{
    law_versions_of_standards(n, Seq::empty());
}

} // verus!
