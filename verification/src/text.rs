//! Text as sequences of characters: the primitives the rest of the library is
//! built from.
//!
//! Every `String` and `&str` is modelled by its view, a `Seq<char>`; a list of
//! strings is modelled by [`texts`]. Splitting, trimming and joining are defined
//! here once, as spec functions, and each has an executable function that
//! computes exactly that.
use vstd::prelude::*;

verus! {

/// `String::push` appends one character and leaves the rest alone.
pub assume_specification[ String::push ](s: &mut String, c: char)
    ensures
        final(s)@ == old(s)@.push(c),
;

/// The model of a list of strings.
pub open spec fn texts(v: Seq<String>) -> Seq<Seq<char>> {
    v.map_values(|s: String| s@)
}

/// The model of an optional value: the option of its view.
pub open spec fn opt<T: View>(o: Option<T>) -> Option<T::V> {
    match o {
        Some(x) => Some(x@),
        None => None,
    }
}

/// The model of an optional list of strings.
pub open spec fn opt_texts(o: Option<Vec<String>>) -> Option<Seq<Seq<char>>> {
    match o {
        Some(v) => Some(texts(v@)),
        None => None,
    }
}

/// The characters of a string, as a vector.
pub fn chars_of(s: &str) -> (out: Vec<char>)
    ensures
        out@ == s@,
{
    let mut out: Vec<char> = Vec::new();
    for c in it: s.chars()
        invariant
            it.seq() == s@,
            out@ == s@.take(it.index() as int),
    {
        proof {
            assert(s@.take(it.index() as int + 1) =~= s@.take(it.index() as int).push(c));
        }
        out.push(c);
    }
    proof {
        assert(s@.take(s@.len() as int) =~= s@);
    }
    out
}

/// The string made of `cs[from..to]`.
pub fn slice_text(cs: &Vec<char>, from: usize, to: usize) -> (out: String)
    requires
        from <= to <= cs@.len(),
    ensures
        out@ == cs@.subrange(from as int, to as int),
{
    let mut out = String::new();
    let mut i: usize = from;
    while i < to
        invariant
            from <= i <= to <= cs@.len(),
            out@ == cs@.subrange(from as int, i as int),
        decreases to - i,
    {
        out.push(cs[i]);
        i += 1;
        proof {
            assert(cs@.subrange(from as int, i as int) =~= cs@.subrange(
                from as int,
                i - 1,
            ).push(cs@[i - 1]));
        }
    }
    out
}

/// Whether two strings hold the same characters.
pub fn same(a: &str, b: &str) -> (res: bool)
    ensures
        res == (a@ == b@),
{
    let x = a.to_owned();
    let y = b.to_owned();
    x == y
}

/// `a` followed by `b`.
pub fn cat(a: &str, b: &str) -> (out: String)
    ensures
        out@ == a@ + b@,
{
    let mut out = a.to_owned();
    out.append(b);
    out
}

/// `a`, `b` and `c` in a row.
pub fn cat3(a: &str, b: &str, c: &str) -> (out: String)
    ensures
        out@ == a@ + b@ + c@,
{
    let mut out = a.to_owned();
    out.append(b);
    out.append(c);
    out
}

/// Append a copy of `s` to a list.
pub fn push_text(v: &mut Vec<String>, s: &str)
    ensures
        texts(final(v)@) == texts(old(v)@).push(s@),
{
    let ghost before = v@;
    v.push(s.to_owned());
    proof {
        assert(texts(v@) =~= texts(before).push(s@));
    }
}

/// Append copies of all of `more` to a list.
pub fn extend_texts(v: &mut Vec<String>, more: &[String])
    ensures
        texts(final(v)@) == texts(old(v)@) + texts(more@),
{
    let ghost before = texts(v@);
    let mut i: usize = 0;
    while i < more.len()
        invariant
            i <= more@.len(),
            texts(v@) == before + texts(more@).take(i as int),
        decreases more@.len() - i,
    {
        push_text(v, more[i].as_str());
        i += 1;
        proof {
            assert(texts(v@) =~= before + texts(more@).take(i as int));
        }
    }
    proof {
        assert(texts(more@).take(i as int) =~= texts(more@));
    }
}

/// A copy of a list of strings.
pub fn copy_texts(v: &[String]) -> (out: Vec<String>)
    ensures
        texts(out@) == texts(v@),
{
    let mut out: Vec<String> = Vec::new();
    extend_texts(&mut out, v);
    proof {
        assert(texts(out@) =~= texts(v@));
    }
    out
}

/// A copy of an optional string.
pub fn copy_opt(o: &Option<String>) -> (out: Option<String>)
    ensures
        opt(out) == opt(*o),
{
    match o {
        Some(s) => Some(s.clone()),
        None => None,
    }
}

/// A copy of an optional list of strings.
pub fn copy_opt_texts(o: &Option<Vec<String>>) -> (out: Option<Vec<String>>)
    ensures
        opt_texts(out) == opt_texts(*o),
{
    match o {
        Some(v) => Some(copy_texts(v.as_slice())),
        None => None,
    }
}

/// Whether a list holds a string.
pub fn has_text(v: &[String], s: &str) -> (res: bool)
    ensures
        res == texts(v@).contains(s@),
{
    let mut i: usize = 0;
    while i < v.len()
        invariant
            i <= v@.len(),
            forall|j: int| 0 <= j < i ==> texts(v@)[j] != s@,
        decreases v@.len() - i,
    {
        if same(v[i].as_str(), s) {
            proof {
                assert(texts(v@)[i as int] == s@);
            }
            return true;
        }
        i += 1;
    }
    false
}

/// Whether `s` begins with `p`.
pub open spec fn begins(s: Seq<char>, p: Seq<char>) -> bool {
    p.len() <= s.len() && s.take(p.len() as int) == p
}

/// Whether `s` ends with `p`.
pub open spec fn ends(s: Seq<char>, p: Seq<char>) -> bool {
    p.len() <= s.len() && s.skip(s.len() - p.len()) == p
}

/// Whether `p` occurs in `s` at position `at`.
pub fn occurs_at(s: &Vec<char>, p: &Vec<char>, at: usize) -> (res: bool)
    requires
        at + p@.len() <= s@.len(),
    ensures
        res == (s@.subrange(at as int, at + p@.len()) == p@),
{
    let n: usize = s.len();
    let mut i: usize = 0;
    while i < p.len()
        invariant
            i <= p@.len(),
            at + p@.len() <= n == s@.len(),
            forall|j: int| 0 <= j < i ==> s@[at + j] == p@[j],
        decreases p@.len() - i,
    {
        if s[at + i] != p[i] {
            proof {
                assert(s@.subrange(at as int, at + p@.len())[i as int] != p@[i as int]);
            }
            return false;
        }
        i += 1;
    }
    proof {
        assert(s@.subrange(at as int, at + p@.len()) =~= p@);
    }
    true
}

/// Whether `s` begins with `p`.
pub fn starts_with(s: &str, p: &str) -> (res: bool)
    ensures
        res == begins(s@, p@),
{
    let sc = chars_of(s);
    let pc = chars_of(p);
    if pc.len() > sc.len() {
        return false;
    }
    proof {
        assert(s@.subrange(0, p@.len() as int) =~= s@.take(p@.len() as int));
    }
    occurs_at(&sc, &pc, 0)
}

/// Whether `s` ends with `p`.
pub fn ends_with(s: &str, p: &str) -> (res: bool)
    ensures
        res == ends(s@, p@),
{
    let sc = chars_of(s);
    let pc = chars_of(p);
    if pc.len() > sc.len() {
        return false;
    }
    proof {
        assert(s@.subrange(s@.len() - p@.len(), s@.len() as int) =~= s@.skip(s@.len() - p@.len()));
    }
    occurs_at(&sc, &pc, sc.len() - pc.len())
}

/// `s` without its first `n` characters.
pub fn skip_text(s: &str, n: usize) -> (out: String)
    requires
        n <= s@.len(),
    ensures
        out@ == s@.skip(n as int),
{
    let sc = chars_of(s);
    proof {
        assert(s@.subrange(n as int, s@.len() as int) =~= s@.skip(n as int));
    }
    slice_text(&sc, n, sc.len())
}

/// What follows `p` in `s`, when `s` begins with `p`.
pub open spec fn after_prefix(s: Seq<char>, p: Seq<char>) -> Option<Seq<char>> {
    if begins(s, p) {
        Some(s.skip(p.len() as int))
    } else {
        None
    }
}

/// What follows `p` in `s`, when `s` begins with `p`.
pub fn strip_prefix(s: &str, p: &str) -> (out: Option<String>)
    ensures
        opt(out) == after_prefix(s@, p@),
{
    if starts_with(s, p) {
        let pc = chars_of(p);
        Some(skip_text(s, pc.len()))
    } else {
        None
    }
}

/// `c` with an ASCII capital letter made small.
pub open spec fn lower_char(c: char) -> char {
    if 'A' <= c && c <= 'Z' {
        ((c as u8) + 32) as char
    } else {
        c
    }
}

/// `s` with its ASCII capital letters made small.
pub open spec fn lower(s: Seq<char>) -> Seq<char> {
    s.map_values(|c: char| lower_char(c))
}

/// `s` with its ASCII capital letters made small.
pub fn to_ascii_lowercase(s: &str) -> (out: String)
    ensures
        out@ == lower(s@),
{
    let mut out = String::new();
    for c in it: s.chars()
        invariant
            it.seq() == s@,
            out@ == lower(s@).take(it.index() as int),
    {
        proof {
            assert(lower(s@).take(it.index() as int + 1) =~= lower(s@).take(
                it.index() as int,
            ).push(lower_char(c)));
        }
        if 'A' <= c && c <= 'Z' {
            out.push((c as u8 + 32) as char);
        } else {
            out.push(c);
        }
    }
    proof {
        assert(lower(s@).take(s@.len() as int) =~= lower(s@));
    }
    out
}

/// Whether `c` has Unicode's `White_Space` property.
pub open spec fn is_white(c: char) -> bool {
    ||| '\u{9}' <= c && c <= '\u{d}'
    ||| c == ' '
    ||| c == '\u{85}'
    ||| c == '\u{a0}'
    ||| c == '\u{1680}'
    ||| '\u{2000}' <= c && c <= '\u{200a}'
    ||| c == '\u{2028}'
    ||| c == '\u{2029}'
    ||| c == '\u{202f}'
    ||| c == '\u{205f}'
    ||| c == '\u{3000}'
}

/// Whether `c` is white space.
pub fn white(c: char) -> (res: bool)
    ensures
        res == is_white(c),
{
    ('\u{9}' <= c && c <= '\u{d}') || c == ' ' || c == '\u{85}' || c == '\u{a0}' || c == '\u{1680}'
        || ('\u{2000}' <= c && c <= '\u{200a}') || c == '\u{2028}' || c == '\u{2029}'
        || c == '\u{202f}' || c == '\u{205f}' || c == '\u{3000}'
}

/// `s` without its leading white space.
pub open spec fn trim_start(s: Seq<char>) -> Seq<char>
    decreases s.len(),
{
    if s.len() > 0 && is_white(s[0]) {
        trim_start(s.skip(1))
    } else {
        s
    }
}

/// `s` without its trailing white space.
pub open spec fn trim_end(s: Seq<char>) -> Seq<char>
    decreases s.len(),
{
    if s.len() > 0 && is_white(s.last()) {
        trim_end(s.drop_last())
    } else {
        s
    }
}

/// `s` without white space at either end.
pub open spec fn trim(s: Seq<char>) -> Seq<char> {
    trim_end(trim_start(s))
}

/// How many characters of white space lead `s`.
pub open spec fn lead_len(s: Seq<char>) -> nat {
    (s.len() - trim_start(s).len()) as nat
}

/// Trimming the front drops exactly the leading white space.
pub proof fn lemma_trim_start(s: Seq<char>)
    ensures
        trim_start(s).len() <= s.len(),
        trim_start(s) == s.skip(lead_len(s) as int),
    decreases s.len(),
{
    if s.len() > 0 && is_white(s[0]) {
        lemma_trim_start(s.skip(1));
        assert(s.skip(1).skip(lead_len(s.skip(1)) as int) =~= s.skip(lead_len(s) as int));
    } else {
        assert(s.skip(0) =~= s);
    }
}

/// The number of leading white space characters.
pub fn lead_count(cs: &Vec<char>) -> (n: usize)
    ensures
        n == lead_len(cs@),
        n <= cs@.len(),
{
    let mut n: usize = 0;
    proof {
        assert(cs@.skip(0) =~= cs@);
    }
    while n < cs.len() && white(cs[n])
        invariant
            n <= cs@.len(),
            trim_start(cs@.skip(n as int)) == trim_start(cs@),
        decreases cs@.len() - n,
    {
        proof {
            assert(cs@.skip(n as int).skip(1) =~= cs@.skip(n + 1));
        }
        n += 1;
    }
    proof {
        lemma_trim_start(cs@);
    }
    n
}

/// `s` without its leading white space.
pub fn text_trim_start(s: &str) -> (out: String)
    ensures
        out@ == trim_start(s@),
{
    let cs = chars_of(s);
    let n: usize = lead_count(&cs);
    proof {
        lemma_trim_start(s@);
        assert(s@.subrange(n as int, s@.len() as int) =~= s@.skip(n as int));
    }
    slice_text(&cs, n, cs.len())
}

/// `s` without its trailing white space.
pub fn text_trim_end(s: &str) -> (out: String)
    ensures
        out@ == trim_end(s@),
{
    let cs = chars_of(s);
    let mut n: usize = cs.len();
    proof {
        assert(cs@.take(n as int) =~= cs@);
    }
    while n > 0 && white(cs[n - 1])
        invariant
            n <= cs@.len(),
            trim_end(cs@.take(n as int)) == trim_end(cs@),
        decreases n,
    {
        proof {
            assert(cs@.take(n as int).drop_last() =~= cs@.take(n - 1));
        }
        n -= 1;
    }
    proof {
        assert(cs@.subrange(0, n as int) =~= cs@.take(n as int));
    }
    slice_text(&cs, 0, n)
}

/// `s` without white space at either end.
pub fn text_trim(s: &str) -> (out: String)
    ensures
        out@ == trim(s@),
{
    let front = text_trim_start(s);
    text_trim_end(front.as_str())
}

/// Where a text is cut into parts.
#[derive(Clone, Copy)]
pub enum Cut {
    /// At every white space character.
    White,
    /// At every `/` and every `\`.
    Slash,
    /// At every occurrence of one character.
    At(char),
}

impl Cut {
    /// Whether the text is cut at `c`.
    pub open spec fn cuts(self, c: char) -> bool {
        match self {
            Cut::White => is_white(c),
            Cut::Slash => c == '/' || c == '\\',
            Cut::At(x) => c == x,
        }
    }

    /// Whether the text is cut at `c`.
    pub fn cuts_at(&self, c: char) -> (res: bool)
        ensures
            res == self.cuts(c),
    {
        match self {
            Cut::White => white(c),
            Cut::Slash => c == '/' || c == '\\',
            Cut::At(x) => c == *x,
        }
    }
}

/// The parts of `s` between the characters it is cut at; there is always one
/// part more than there are cuts.
pub open spec fn split(s: Seq<char>, cut: Cut) -> Seq<Seq<char>>
    decreases s.len(),
{
    if s.len() == 0 {
        seq![Seq::empty()]
    } else {
        let front = split(s.drop_last(), cut);
        if cut.cuts(s.last()) {
            front.push(Seq::empty())
        } else {
            front.drop_last().push(front.last().push(s.last()))
        }
    }
}

/// Splitting never yields nothing.
pub proof fn lemma_split_some(s: Seq<char>, cut: Cut)
    ensures
        split(s, cut).len() >= 1,
    decreases s.len(),
{
    if s.len() > 0 {
        lemma_split_some(s.drop_last(), cut);
    }
}

/// The parts of `s` between the characters it is cut at.
pub fn split_text(s: &str, cut: Cut) -> (out: Vec<String>)
    ensures
        texts(out@) == split(s@, cut),
        out@.len() >= 1,
{
    let cs = chars_of(s);
    let mut out: Vec<String> = Vec::new();
    let mut cur = String::new();
    let mut i: usize = 0;
    proof {
        assert(texts(out@).push(cur@) =~= split(s@.take(0), cut));
    }
    while i < cs.len()
        invariant
            cs@ == s@,
            i <= cs@.len(),
            texts(out@).push(cur@) == split(s@.take(i as int), cut),
        decreases cs@.len() - i,
    {
        let c = cs[i];
        let ghost before = texts(out@).push(cur@);
        proof {
            assert(s@.take(i + 1).drop_last() =~= s@.take(i as int));
            assert(before.drop_last() =~= texts(out@));
        }
        if cut.cuts_at(c) {
            let ghost done = cur@;
            push_text(&mut out, cur.as_str());
            cur = String::new();
        } else {
            cur.push(c);
        }
        i += 1;
    }
    push_text(&mut out, cur.as_str());
    proof {
        assert(s@.take(i as int) =~= s@);
        lemma_split_some(s@, cut);
        assert(texts(out@).len() == out@.len());
    }
    out
}

/// The parts that are not empty.
pub open spec fn filled(v: Seq<Seq<char>>) -> Seq<Seq<char>> {
    v.filter(|t: Seq<char>| t.len() > 0)
}

/// The strings that are not empty, in order.
pub fn filled_texts(v: &[String]) -> (out: Vec<String>)
    ensures
        texts(out@) == filled(texts(v@)),
{
    reveal(Seq::filter);
    let mut out: Vec<String> = Vec::new();
    let mut i: usize = 0;
    proof {
        assert(texts(v@).take(0) =~= Seq::empty());
    }
    while i < v.len()
        invariant
            i <= v@.len(),
            texts(out@) == filled(texts(v@).take(i as int)),
        decreases v@.len() - i,
    {
        proof {
            reveal(Seq::filter);
            assert(texts(v@).take(i + 1).drop_last() =~= texts(v@).take(i as int));
        }
        if !v[i].as_str().is_empty() {
            push_text(&mut out, v[i].as_str());
        }
        i += 1;
    }
    proof {
        assert(texts(v@).take(i as int) =~= texts(v@));
    }
    out
}

/// The words of `s`: its parts between white space.
pub open spec fn white_words(s: Seq<char>) -> Seq<Seq<char>> {
    filled(split(s, Cut::White))
}

/// The words of `s`: its parts between white space.
pub fn split_whitespace(s: &str) -> (out: Vec<String>)
    ensures
        texts(out@) == white_words(s@),
{
    let parts = split_text(s, Cut::White);
    filled_texts(parts.as_slice())
}

/// What follows the last cut in `s`.
pub open spec fn last_part(s: Seq<char>, cut: Cut) -> Seq<char> {
    split(s, cut).last()
}

/// What follows the last cut in `s`.
pub fn last_part_of(s: &str, cut: Cut) -> (out: String)
    ensures
        out@ == last_part(s@, cut),
{
    let parts = split_text(s, cut);
    let n: usize = parts.len();
    proof {
        assert(texts(parts@).last() == parts@[n - 1]@);
    }
    parts[n - 1].clone()
}

/// `s` without one carriage return at its end.
pub open spec fn strip_cr(s: Seq<char>) -> Seq<char> {
    if s.len() > 0 && s.last() == '\r' {
        s.drop_last()
    } else {
        s
    }
}

/// The lines of a text. A line ends at `\n` or `\r\n`; the end of the last one
/// may be missing.
pub open spec fn lines(s: Seq<char>) -> Seq<Seq<char>> {
    let parts = split(s, Cut::At('\n'));
    let ended = parts.drop_last().map_values(|p: Seq<char>| strip_cr(p));
    if parts.last().len() == 0 {
        ended
    } else {
        ended.push(parts.last())
    }
}

/// `s` without one carriage return at its end.
pub fn without_cr(s: &str) -> (out: String)
    ensures
        out@ == strip_cr(s@),
{
    let cs = chars_of(s);
    let n: usize = cs.len();
    if n > 0 && cs[n - 1] == '\r' {
        proof {
            assert(s@.subrange(0, n - 1) =~= s@.drop_last());
        }
        slice_text(&cs, 0, n - 1)
    } else {
        s.to_owned()
    }
}

/// The lines of a text.
pub fn text_lines(s: &str) -> (out: Vec<String>)
    ensures
        texts(out@) == lines(s@),
{
    let parts = split_text(s, Cut::At('\n'));
    let last: usize = parts.len() - 1;
    let ghost all = split(s@, Cut::At('\n'));
    let ghost ended = all.drop_last().map_values(|p: Seq<char>| strip_cr(p));
    let mut out: Vec<String> = Vec::new();
    let mut i: usize = 0;
    while i < last
        invariant
            i <= last == parts@.len() - 1,
            texts(parts@) == all,
            ended == all.drop_last().map_values(|p: Seq<char>| strip_cr(p)),
            texts(out@) == ended.take(i as int),
        decreases last - i,
    {
        let line = without_cr(parts[i].as_str());
        push_text(&mut out, line.as_str());
        proof {
            assert(all[i as int] == parts@[i as int]@);
            assert(ended.take(i + 1) =~= ended.take(i as int).push(strip_cr(all[i as int])));
        }
        i += 1;
    }
    proof {
        assert(ended.take(i as int) =~= ended);
        assert(all.last() == parts@[last as int]@);
    }
    if !parts[last].as_str().is_empty() {
        push_text(&mut out, parts[last].as_str());
    }
    out
}

/// The texts of `v` with `sep` between each two neighbours.
pub open spec fn join(v: Seq<Seq<char>>, sep: Seq<char>) -> Seq<char>
    decreases v.len(),
{
    if v.len() == 0 {
        Seq::empty()
    } else if v.len() == 1 {
        v[0]
    } else {
        join(v.drop_last(), sep) + sep + v.last()
    }
}

/// The strings of `v` with `sep` between each two neighbours.
pub fn join_texts(v: &[String], sep: &str) -> (out: String)
    ensures
        out@ == join(texts(v@), sep@),
{
    let mut out = String::new();
    let mut i: usize = 0;
    proof {
        assert(texts(v@).take(0) =~= Seq::empty());
    }
    while i < v.len()
        invariant
            i <= v@.len(),
            out@ == join(texts(v@).take(i as int), sep@),
        decreases v@.len() - i,
    {
        proof {
            let t = texts(v@);
            assert(t.take(i + 1).drop_last() =~= t.take(i as int));
            assert(t.take(i + 1).last() == v@[i as int]@);
            assert(i == 0 ==> Seq::<char>::empty() + v@[0]@ =~= v@[0]@);
        }
        if i > 0 {
            out.append(sep);
        }
        out.append(v[i].as_str());
        i += 1;
    }
    proof {
        assert(texts(v@).take(i as int) =~= texts(v@));
    }
    out
}

/// The digit of a number below sixteen, in lower case.
pub open spec fn digit(n: nat) -> char {
    if n < 10 {
        ('0' as u8 + n) as char
    } else {
        ('a' as u8 + (n - 10)) as char
    }
}

/// The digit of a number below sixteen, in lower case.
pub fn digit_of(n: u8) -> (c: char)
    requires
        n < 16,
    ensures
        c == digit(n as nat),
{
    if n < 10 {
        (48u8 + n) as char
    } else {
        (87u8 + n) as char
    }
}

/// A number in decimal, without leading zeros.
pub open spec fn decimal(n: nat) -> Seq<char>
    decreases n,
{
    if n < 10 {
        seq![digit(n)]
    } else {
        decimal(n / 10).push(digit(n % 10))
    }
}

/// A number in decimal.
pub fn decimal_text(n: usize) -> (out: String)
    ensures
        out@ == decimal(n as nat),
    decreases n,
{
    if n < 10 {
        let mut out = String::new();
        out.push(digit_of(n as u8));
        proof {
            assert(out@ =~= seq![digit(n as nat)]);
        }
        out
    } else {
        let mut out = decimal_text(n / 10);
        out.push(digit_of((n % 10) as u8));
        out
    }
}

/// The last `width` hexadecimal digits of a number.
pub open spec fn hex(n: nat, width: nat) -> Seq<char>
    decreases width,
{
    if width == 0 {
        Seq::empty()
    } else {
        hex(n / 16, (width - 1) as nat).push(digit(n % 16))
    }
}

/// How many numbers `width` hexadecimal digits tell apart.
pub open spec fn hex_range(width: nat) -> nat
    decreases width,
{
    if width == 0 {
        1
    } else {
        16 * hex_range((width - 1) as nat)
    }
}

proof fn lemma_hex_tells_apart(n: nat, m: nat, width: nat)
    requires
        n < hex_range(width),
        m < hex_range(width),
        hex(n, width) == hex(m, width),
    ensures
        n == m,
    decreases width,
{
    if width > 0 {
        let w = (width - 1) as nat;
        let a = hex(n / 16, w);
        let b = hex(m / 16, w);
        assert(a.push(digit(n % 16)).drop_last() =~= a);
        assert(b.push(digit(m % 16)).drop_last() =~= b);
        assert(a.push(digit(n % 16)).last() == digit(n % 16));
        assert(b.push(digit(m % 16)).last() == digit(m % 16));
        lemma_hex_tells_apart(n / 16, m / 16, w);
    }
}

/// Sixteen hexadecimal digits tell any two numbers of 64 bits apart.
pub proof fn law_hex_tells_apart(n: u64, m: u64)
    requires
        hex(n as nat, 16) == hex(m as nat, 16),
    ensures
        n == m,
{
    reveal_with_fuel(hex_range, 17);
    lemma_hex_tells_apart(n as nat, m as nat, 16);
}

/// The last `width` hexadecimal digits of a number.
pub fn hex_text(n: u64, width: usize) -> (out: String)
    ensures
        out@ == hex(n as nat, width as nat),
    decreases width,
{
    if width == 0 {
        String::new()
    } else {
        let mut out = hex_text(n / 16, width - 1);
        out.push(digit_of((n % 16) as u8));
        out
    }
}

/// What Rust's `Debug` formatting (`{:?}`) makes of a string: the text in double
/// quotes, with its special characters escaped.
pub uninterp spec fn debug_text(s: Seq<char>) -> Seq<char>;

/// `format!("{:?}", s)` on a string. The result is named, not described: which
/// characters are escaped, and how, is left to the standard library.
#[verifier::external_body]
pub(crate) fn debug_of(s: &str) -> (out: String)
    ensures
        out@ == debug_text(s@),
{
    format!("{:?}", s)
}

/// What Rust's `Debug` formatting makes of a list of strings.
pub open spec fn debug_list(v: Seq<Seq<char>>) -> Seq<char> {
    "["@ + join(v.map_values(|t: Seq<char>| debug_text(t)), ", "@) + "]"@
}

/// What Rust's `Debug` formatting makes of a list of strings.
pub fn debug_list_of(v: &[String]) -> (out: String)
    ensures
        out@ == debug_list(texts(v@)),
{
    let ghost shown = texts(v@).map_values(|t: Seq<char>| debug_text(t));
    let mut parts: Vec<String> = Vec::new();
    let mut i: usize = 0;
    while i < v.len()
        invariant
            i <= v@.len(),
            shown == texts(v@).map_values(|t: Seq<char>| debug_text(t)),
            texts(parts@) == shown.take(i as int),
        decreases v@.len() - i,
    {
        let shown_one = debug_of(v[i].as_str());
        push_text(&mut parts, shown_one.as_str());
        i += 1;
        proof {
            assert(shown.take(i as int) =~= shown.take(i - 1).push(shown[i - 1]));
        }
    }
    proof {
        assert(shown.take(i as int) =~= shown);
    }
    let body = join_texts(parts.as_slice(), ", ");
    cat3("[", body.as_str(), "]")
}

/// The first of two options that holds something.
pub open spec fn either<T>(a: Option<T>, b: Option<T>) -> Option<T> {
    match a {
        Some(x) => Some(x),
        None => b,
    }
}

/// A copy of the first of two optional strings that is there.
pub fn either_text(a: &Option<String>, b: &Option<String>) -> (out: Option<String>)
    ensures
        opt(out) == either(opt(*a), opt(*b)),
{
    match a {
        Some(x) => Some(x.clone()),
        None => copy_opt(b),
    }
}

/// Splitting a text that holds no cut yields the text itself.
pub proof fn lemma_split_whole(b: Seq<char>, cut: Cut)
    requires
        forall|i: int| 0 <= i < b.len() ==> !cut.cuts(#[trigger] b[i]),
    ensures
        split(b, cut) == seq![b],
    decreases b.len(),
{
    if b.len() > 0 {
        lemma_split_whole(b.drop_last(), cut);
        assert(b.drop_last().push(b.last()) =~= b);
        assert(split(b, cut) =~= seq![b]);
    } else {
        assert(b =~= Seq::empty());
        assert(split(b, cut) =~= seq![b]);
    }
}

/// No part holds a character that it is cut at, and every character of a part is one
/// of the text.
pub proof fn lemma_split_parts(s: Seq<char>, cut: Cut)
    ensures
        forall|i: int, j: int|
            0 <= i < split(s, cut).len() && 0 <= j < split(s, cut)[i].len()
                ==> !cut.cuts(#[trigger] split(s, cut)[i][j]),
        forall|i: int, j: int|
            0 <= i < split(s, cut).len() && 0 <= j < split(s, cut)[i].len()
                ==> s.contains(#[trigger] split(s, cut)[i][j]),
    decreases s.len(),
{
    if s.len() > 0 {
        let front = split(s.drop_last(), cut);
        lemma_split_parts(s.drop_last(), cut);
        lemma_split_some(s.drop_last(), cut);
        let all = split(s, cut);
        assert forall|i: int, j: int| 0 <= i < all.len() && 0 <= j < all[i].len() implies !cut.cuts(
            #[trigger] all[i][j],
        ) && s.contains(all[i][j]) by {
            if i < front.len() && j < front[i].len() {
                assert(all[i][j] == front[i][j]);
                assert(s.drop_last().contains(front[i][j]));
                let k = choose|k: int|
                    0 <= k < s.drop_last().len() && s.drop_last()[k] == front[i][j];
                assert(s[k] == all[i][j]);
            } else {
                assert(all[i][j] == s[s.len() - 1]);
            }
        }
    }
}

/// A cut followed by a text that holds none adds that text as the last part.
pub proof fn lemma_split_tail(a: Seq<char>, c: char, b: Seq<char>, cut: Cut)
    requires
        cut.cuts(c),
        forall|i: int| 0 <= i < b.len() ==> !cut.cuts(#[trigger] b[i]),
    ensures
        split(a + seq![c] + b, cut) == split(a, cut).push(b),
    decreases b.len(),
{
    let s = a + seq![c] + b;
    if b.len() == 0 {
        assert(s.drop_last() =~= a);
        assert(s.last() == c);
        assert(b =~= Seq::empty());
    } else {
        lemma_split_tail(a, c, b.drop_last(), cut);
        assert(s.drop_last() =~= a + seq![c] + b.drop_last());
        assert(s.last() == b.last());
        assert(b.drop_last().push(b.last()) =~= b);
        assert(split(s, cut) =~= split(a, cut).push(b));
    }
}

/// Parts that hold no separator come back when their join is split.
pub proof fn law_split_undoes_join(v: Seq<Seq<char>>, c: char)
    requires
        v.len() > 0,
        forall|i: int, j: int| 0 <= i < v.len() && 0 <= j < v[i].len() ==> #[trigger] v[i][j] != c,
    ensures
        split(join(v, seq![c]), Cut::At(c)) == v,
    decreases v.len(),
{
    let last = v.last();
    assert forall|j: int| 0 <= j < last.len() implies !Cut::At(c).cuts(#[trigger] last[j]) by {
        assert(v[v.len() - 1][j] != c);
    }
    if v.len() == 1 {
        lemma_split_whole(last, Cut::At(c));
        assert(seq![last] =~= v);
    } else {
        let front = v.drop_last();
        assert forall|i: int, j: int|
            0 <= i < front.len() && 0 <= j < front[i].len() implies #[trigger] front[i][j] != c by {
            assert(v[i][j] != c);
        }
        law_split_undoes_join(front, c);
        lemma_split_tail(join(front, seq![c]), c, last, Cut::At(c));
        assert(front.push(last) =~= v);
    }
}

/// Joining the parts of a text with the character it was split at gives the text
/// back.
pub proof fn law_join_undoes_split(s: Seq<char>, c: char)
    ensures
        join(split(s, Cut::At(c)), seq![c]) == s,
    decreases s.len(),
{
    if s.len() > 0 {
        let front = split(s.drop_last(), Cut::At(c));
        law_join_undoes_split(s.drop_last(), c);
        lemma_split_some(s.drop_last(), Cut::At(c));
        let all = split(s, Cut::At(c));
        if s.last() == c {
            assert(all.drop_last() =~= front);
            assert(join(all, seq![c]) == join(front, seq![c]) + seq![c] + Seq::empty());
            assert(join(all, seq![c]) =~= s);
        } else {
            let longer = front.last().push(s.last());
            assert(all.drop_last() =~= front.drop_last());
            if front.len() == 1 {
                assert(join(all, seq![c]) == longer);
                assert(longer =~= s);
            } else {
                assert(join(all, seq![c]) =~= join(front, seq![c]).push(s.last()));
                assert(join(all, seq![c]) =~= s);
            }
        }
    } else {
        assert(join(split(s, Cut::At(c)), seq![c]) =~= s);
    }
}

/// Dropping the empty texts leaves only texts of the list, none of them empty.
pub proof fn lemma_filled(v: Seq<Seq<char>>)
    ensures
        forall|i: int| 0 <= i < filled(v).len() ==> (#[trigger] filled(v)[i]).len() > 0,
        forall|i: int| 0 <= i < filled(v).len() ==> v.contains(#[trigger] filled(v)[i]),
        (forall|i: int| 0 <= i < v.len() ==> (#[trigger] v[i]).len() > 0) ==> filled(v) == v,
    decreases v.len(),
{
    reveal(Seq::filter);
    if v.len() > 0 {
        let front = v.drop_last();
        lemma_filled(front);
        assert forall|i: int| 0 <= i < filled(v).len() implies v.contains(#[trigger] filled(v)[i]) by {
            if i < filled(front).len() {
                assert(front.contains(filled(front)[i]));
                let k = choose|k: int| 0 <= k < front.len() && front[k] == filled(front)[i];
                assert(v[k] == filled(v)[i]);
            } else {
                assert(v[v.len() - 1] == filled(v)[i]);
            }
        }
        if forall|i: int| 0 <= i < v.len() ==> (#[trigger] v[i]).len() > 0 {
            assert forall|i: int| 0 <= i < front.len() implies (#[trigger] front[i]).len() > 0 by {
                assert(v[i].len() > 0);
            }
            assert(v[v.len() - 1].len() > 0);
            assert(filled(v) =~= v);
        }
    }
}

/// An empty list.
pub fn none() -> (out: Vec<String>)
    ensures
        texts(out@) == Seq::<Seq<char>>::empty(),
{
    let out: Vec<String> = Vec::new();
    proof {
        assert(texts(out@) =~= Seq::<Seq<char>>::empty());
    }
    out
}

/// A list of one string.
pub fn one(s: &str) -> (out: Vec<String>)
    ensures
        texts(out@) == seq![s@],
{
    let mut out = none();
    push_text(&mut out, s);
    out
}

/// Where `p` first occurs in `s`.
pub open spec fn find(s: Seq<char>, p: Seq<char>) -> Option<int>
    decreases s.len(),
{
    if begins(s, p) {
        Some(0)
    } else if s.len() == 0 {
        None
    } else {
        match find(s.skip(1), p) {
            Some(i) => Some(i + 1),
            None => None,
        }
    }
}

/// Whether `p` occurs in `s`.
pub open spec fn has_within(s: Seq<char>, p: Seq<char>) -> bool {
    find(s, p) is Some
}

/// Where `p` first occurs in `s`.
pub fn find_text(s: &str, p: &str) -> (out: Option<usize>)
    ensures
        match out {
            Some(i) => find(s@, p@) == Some(i as int) && i + p@.len() <= s@.len(),
            None => find(s@, p@) is None,
        },
{
    let sc = chars_of(s);
    let pc = chars_of(p);
    let mut i: usize = 0;
    proof {
        assert(s@.skip(0) =~= s@);
    }
    while i <= sc.len() && pc.len() <= sc.len() - i
        invariant
            sc@ == s@,
            pc@ == p@,
            i <= s@.len() + 1,
            i <= s@.len() ==> find(s@, p@) == (match find(s@.skip(i as int), p@) {
                Some(k) => Some(k + i),
                None => None,
            }),
            i > s@.len() ==> find(s@, p@) is None,
        decreases s@.len() + 1 - i,
    {
        let ghost rest = s@.skip(i as int);
        proof {
            assert(rest.take(p@.len() as int) =~= s@.subrange(i as int, i + p@.len()));
            assert(rest.len() > 0 ==> rest.skip(1) =~= s@.skip(i + 1));
        }
        if occurs_at(&sc, &pc, i) {
            return Some(i);
        }
        if i == sc.len() {
            return None;
        }
        i += 1;
    }
    proof {
        if i <= s@.len() {
            lemma_find_short(s@.skip(i as int), p@);
        }
    }
    None
}

proof fn lemma_find_short(s: Seq<char>, p: Seq<char>)
    requires
        s.len() < p.len(),
    ensures
        find(s, p) is None,
    decreases s.len(),
{
    if s.len() > 0 {
        lemma_find_short(s.skip(1), p);
    }
}

/// What stands before and after the first `p` in `s`.
pub open spec fn cut_once(s: Seq<char>, p: Seq<char>) -> Option<(Seq<char>, Seq<char>)> {
    match find(s, p) {
        Some(i) => Some((s.take(i), s.skip(i + p.len()))),
        None => None,
    }
}

/// What stands before and after the first `p` in `s`.
pub fn split_once(s: &str, p: &str) -> (out: Option<(String, String)>)
    ensures
        match out {
            Some((a, b)) => cut_once(s@, p@) == Some((a@, b@)),
            None => cut_once(s@, p@) is None,
        },
{
    match find_text(s, p) {
        Some(i) => {
            let sc = chars_of(s);
            let pc = chars_of(p);
            let n: usize = sc.len();
            let end: usize = i + pc.len();
            proof {
                assert(s@.subrange(0, i as int) =~= s@.take(i as int));
                assert(s@.subrange(end as int, s@.len() as int) =~= s@.skip(end as int));
            }
            let a = slice_text(&sc, 0, i);
            let b = slice_text(&sc, end, n);
            Some((a, b))
        },
        None => None,
    }
}

/// `s` without `p` at its end, where it ends so.
pub open spec fn without_suffix(s: Seq<char>, p: Seq<char>) -> Seq<char> {
    if ends(s, p) {
        s.take(s.len() - p.len())
    } else {
        s
    }
}

/// `s` without `p` at its end, where it ends so.
pub fn strip_suffix(s: &str, p: &str) -> (out: String)
    ensures
        out@ == without_suffix(s@, p@),
{
    if ends_with(s, p) {
        let sc = chars_of(s);
        let pc = chars_of(p);
        let end: usize = sc.len() - pc.len();
        proof {
            assert(s@.subrange(0, end as int) =~= s@.take(end as int));
        }
        slice_text(&sc, 0, end)
    } else {
        s.to_owned()
    }
}

/// Whether every character of `s` is white space.
pub open spec fn all_white(s: Seq<char>) -> bool {
    forall|i: int| 0 <= i < s.len() ==> is_white(#[trigger] s[i])
}

/// Whether `s` is a word: it is not empty, and no character of it is white space.
pub open spec fn solid(s: Seq<char>) -> bool {
    s.len() > 0 && forall|i: int| 0 <= i < s.len() ==> !is_white(#[trigger] s[i])
}

/// Words in a row, each behind a gap.
pub open spec fn in_a_row(gaps: Seq<Seq<char>>, words: Seq<Seq<char>>) -> Seq<char>
    decreases words.len(),
{
    if words.len() == 0 {
        Seq::empty()
    } else {
        in_a_row(gaps.drop_last(), words.drop_last()) + gaps.last() + words.last()
    }
}

proof fn lemma_filled_push(v: Seq<Seq<char>>, t: Seq<char>)
    ensures
        filled(v.push(t)) == (if t.len() > 0 {
            filled(v).push(t)
        } else {
            filled(v)
        }),
{
    reveal(Seq::filter);
    assert(v.push(t).drop_last() =~= v);
}

proof fn lemma_gap_ends_a_word(x: Seq<char>, g: Seq<char>)
    requires
        all_white(g),
        g.len() > 0,
    ensures
        split(x + g, Cut::White).last().len() == 0,
        white_words(x + g) == white_words(x),
    decreases g.len(),
{
    let front = g.drop_last();
    let y = x + front;
    assert(is_white(g[g.len() - 1]));
    assert(x + g =~= y + seq![g.last()] + Seq::empty());
    lemma_split_tail(y, g.last(), Seq::empty(), Cut::White);
    lemma_filled_push(split(y, Cut::White), Seq::empty());
    if front.len() > 0 {
        assert forall|i: int| 0 <= i < front.len() implies is_white(#[trigger] front[i]) by {
            assert(is_white(g[i]));
        }
        lemma_gap_ends_a_word(x, front);
    } else {
        assert(y =~= x);
    }
}

proof fn lemma_word_extends(x: Seq<char>, w: Seq<char>)
    requires
        forall|i: int| 0 <= i < w.len() ==> !is_white(#[trigger] w[i]),
    ensures
        split(x + w, Cut::White) == split(x, Cut::White).drop_last().push(
            split(x, Cut::White).last() + w,
        ),
    decreases w.len(),
{
    let p = split(x, Cut::White);
    lemma_split_some(x, Cut::White);
    if w.len() == 0 {
        assert(x + w =~= x);
        assert(p.last() + w =~= p.last());
        assert(p.drop_last().push(p.last()) =~= p);
    } else {
        let front = w.drop_last();
        assert forall|i: int| 0 <= i < front.len() implies !is_white(#[trigger] front[i]) by {
            assert(!is_white(w[i]));
        }
        lemma_word_extends(x, front);
        assert(!is_white(w[w.len() - 1]));
        assert((x + w).drop_last() =~= x + front);
        assert((x + w).last() == w.last());
        let q = split(x + front, Cut::White);
        assert(q.drop_last() =~= p.drop_last());
        assert(q.last().push(w.last()) =~= p.last() + w);
    }
}

/// The words of a text are those it was written with: words parted by any white
/// space, with or without white space around them, are read back in order.
pub proof fn law_words_are_read_back(
    gaps: Seq<Seq<char>>,
    words: Seq<Seq<char>>,
    end: Seq<char>,
)
    requires
        gaps.len() == words.len(),
        forall|i: int| 0 <= i < words.len() ==> solid(#[trigger] words[i]),
        forall|i: int| 0 <= i < gaps.len() ==> all_white(#[trigger] gaps[i]),
        forall|i: int| 0 < i < gaps.len() ==> (#[trigger] gaps[i]).len() > 0,
        all_white(end),
    ensures
        white_words(in_a_row(gaps, words) + end) == words,
{
    lemma_words_are_read_back(gaps, words);
    let s = in_a_row(gaps, words);
    if end.len() > 0 {
        lemma_gap_ends_a_word(s, end);
    } else {
        assert(s + end =~= s);
    }
}

proof fn lemma_words_are_read_back(gaps: Seq<Seq<char>>, words: Seq<Seq<char>>)
    requires
        gaps.len() == words.len(),
        forall|i: int| 0 <= i < words.len() ==> solid(#[trigger] words[i]),
        forall|i: int| 0 <= i < gaps.len() ==> all_white(#[trigger] gaps[i]),
        forall|i: int| 0 < i < gaps.len() ==> (#[trigger] gaps[i]).len() > 0,
    ensures
        white_words(in_a_row(gaps, words)) == words,
    decreases words.len(),
{
    let none = Seq::<char>::empty();
    if words.len() == 0 {
        lemma_filled_push(Seq::empty(), none);
        reveal(Seq::filter);
        assert(filled(Seq::empty()) =~= Seq::empty());
        assert(split(none, Cut::White) =~= Seq::<Seq<char>>::empty().push(none));
        assert(words =~= Seq::empty());
    } else {
        let n = words.len() - 1;
        let fw = words.drop_last();
        let fg = gaps.drop_last();
        assert forall|i: int| 0 <= i < fw.len() implies solid(#[trigger] fw[i]) by {
            assert(solid(words[i]));
        }
        assert forall|i: int| 0 <= i < fg.len() implies all_white(#[trigger] fg[i]) by {
            assert(all_white(gaps[i]));
        }
        assert forall|i: int| 0 < i < fg.len() implies (#[trigger] fg[i]).len() > 0 by {
            assert(gaps[i].len() > 0);
        }
        lemma_words_are_read_back(fg, fw);
        let front = in_a_row(fg, fw);
        let g = gaps[n];
        let w = words[n];
        assert(solid(w) && all_white(g));
        let x = front + g;
        if g.len() > 0 {
            lemma_gap_ends_a_word(front, g);
        } else {
            assert(n == 0);
            assert(front =~= none);
            assert(x =~= none);
            assert(split(x, Cut::White) =~= seq![none]);
            assert(split(x, Cut::White).last().len() == 0);
        }
        let p = split(x, Cut::White);
        lemma_split_some(x, Cut::White);
        assert(white_words(x) == fw);
        lemma_word_extends(x, w);
        assert(p.last() + w =~= w);
        lemma_filled_push(p.drop_last(), p.last());
        assert(p.drop_last().push(p.last()) =~= p);
        lemma_filled_push(p.drop_last(), w);
        assert(fw.push(w) =~= words);
    }
}

/// Trimming drops the white space around a text and nothing else.
pub proof fn law_trim(lead: Seq<char>, core: Seq<char>, tail: Seq<char>)
    requires
        all_white(lead),
        all_white(tail),
        core.len() == 0 || (!is_white(core[0]) && !is_white(core.last())),
    ensures
        trim(lead + core + tail) == core,
    decreases lead.len() + tail.len(),
{
    let s = lead + core + tail;
    if lead.len() > 0 {
        let rest = lead.skip(1);
        assert forall|i: int| 0 <= i < rest.len() implies is_white(#[trigger] rest[i]) by {
            assert(is_white(lead[i + 1]));
        }
        law_trim(rest, core, tail);
        assert(is_white(lead[0]));
        assert(s[0] == lead[0]);
        assert(s.skip(1) =~= rest + core + tail);
    } else if core.len() == 0 {
        if tail.len() > 0 {
            let rest = tail.skip(1);
            assert forall|i: int| 0 <= i < rest.len() implies is_white(#[trigger] rest[i]) by {
                assert(is_white(tail[i + 1]));
            }
            law_trim(lead, core, rest);
            assert(is_white(tail[0]));
            assert(s[0] == tail[0]);
            assert(s.skip(1) =~= lead + core + rest);
        } else {
            assert(s =~= core);
        }
    } else {
        assert(s[0] == core[0]);
        assert(trim_start(s) == s);
        if tail.len() > 0 {
            let rest = tail.drop_last();
            assert forall|i: int| 0 <= i < rest.len() implies is_white(#[trigger] rest[i]) by {
                assert(is_white(tail[i]));
            }
            law_trim(lead, core, rest);
            let t = lead + core + rest;
            assert(t[0] == core[0]);
            assert(trim_start(t) == t);
            assert(is_white(tail[tail.len() - 1]));
            assert(s.last() == tail.last());
            assert(s.drop_last() =~= t);
        } else {
            assert(s =~= core);
        }
    }
}

/// What follows the last cut is what stands behind it, or the whole text where it is
/// not cut at all.
pub proof fn law_last_part(a: Seq<char>, c: char, b: Seq<char>, cut: Cut)
    requires
        cut.cuts(c),
        forall|i: int| 0 <= i < b.len() ==> !cut.cuts(#[trigger] b[i]),
    ensures
        last_part(a + seq![c] + b, cut) == b,
        last_part(b, cut) == b,
{
    lemma_split_tail(a, c, b, cut);
    lemma_split_whole(b, cut);
}

/// Cutting once at a mark gives what stands before its first occurrence and what
/// stands behind it; nothing is cut only where the mark does not occur.
pub proof fn law_cut_once(s: Seq<char>, p: Seq<char>)
    ensures
        cut_once(s, p) matches Some(ab) ==> s == ab.0 + p + ab.1 && forall|i: int|
            0 <= i < ab.0.len() ==> !(i + p.len() <= s.len() && #[trigger] s.subrange(
                i,
                i + p.len(),
            ) == p),
        cut_once(s, p) is None ==> forall|i: int|
            0 <= i && i + p.len() <= s.len() ==> #[trigger] s.subrange(i, i + p.len()) != p,
{
    lemma_find(s, p);
    if let Some(i) = find(s, p) {
        assert(s =~= s.take(i) + p + s.skip(i + p.len()));
    }
}

proof fn lemma_find(s: Seq<char>, p: Seq<char>)
    ensures
        find(s, p) matches Some(k) ==> 0 <= k && k + p.len() <= s.len() && s.subrange(
            k,
            k + p.len(),
        ) == p && forall|i: int|
            0 <= i < k ==> #[trigger] s.subrange(i, i + p.len()) != p,
        find(s, p) is None ==> forall|i: int|
            0 <= i && i + p.len() <= s.len() ==> #[trigger] s.subrange(i, i + p.len()) != p,
    decreases s.len(),
{
    if begins(s, p) {
        assert(s.subrange(0, p.len() as int) =~= s.take(p.len() as int));
    } else {
        let r = s.skip(1);
        assert(p.len() <= s.len() ==> s.subrange(0, p.len() as int) =~= s.take(p.len() as int));
        if s.len() > 0 {
            lemma_find(r, p);
            if let Some(k) = find(r, p) {
                assert(s.subrange(k + 1, k + 1 + p.len()) =~= r.subrange(k, k + p.len()));
                assert forall|i: int| 0 <= i < k + 1 implies #[trigger] s.subrange(i, i + p.len())
                    != p by {
                    if i > 0 {
                        assert(s.subrange(i, i + p.len()) =~= r.subrange(i - 1, i - 1 + p.len()));
                    }
                }
            } else {
                assert forall|i: int|
                    0 <= i && i + p.len() <= s.len() implies #[trigger] s.subrange(i, i + p.len())
                    != p by {
                    if i > 0 {
                        assert(s.subrange(i, i + p.len()) =~= r.subrange(i - 1, i - 1 + p.len()));
                    }
                }
            }
        }
    }
}

/// A text begins and ends with what was put there.
pub proof fn law_begins_and_ends(p: Seq<char>, s: Seq<char>)
    ensures
        begins(p + s, p),
        after_prefix(p + s, p) == Some(s),
        ends(s + p, p),
        without_suffix(s + p, p) == s,
        begins(s, p) ==> s == p + s.skip(p.len() as int),
        ends(s, p) ==> s == s.take(s.len() - p.len()) + p,
{
    assert((p + s).take(p.len() as int) =~= p);
    assert((p + s).skip(p.len() as int) =~= s);
    assert((s + p).skip(s.len() as int) =~= p);
    assert((s + p).take(s.len() as int) =~= s);
    if begins(s, p) {
        assert(s =~= p + s.skip(p.len() as int));
    }
    if ends(s, p) {
        assert(s =~= s.take(s.len() - p.len()) + p);
    }
}

/// Lines with their ends.
pub open spec fn ended_lines(ls: Seq<Seq<char>>) -> Seq<char>
    decreases ls.len(),
{
    if ls.len() == 0 {
        Seq::empty()
    } else {
        ended_lines(ls.drop_last()) + ls.last() + seq!['\n']
    }
}

/// The lines of a text are those it was written with.
pub proof fn law_lines_are_read_back(ls: Seq<Seq<char>>)
    requires
        forall|i: int, j: int|
            0 <= i < ls.len() && 0 <= j < ls[i].len() ==> #[trigger] ls[i][j] != '\n',
        forall|i: int|
            0 <= i < ls.len() ==> !((#[trigger] ls[i]).len() > 0 && ls[i].last() == '\r'),
    ensures
        lines(ended_lines(ls)) == ls,
{
    lemma_ended_lines(ls);
    let parts = split(ended_lines(ls), Cut::At('\n'));
    assert(parts.drop_last() =~= ls);
    assert forall|i: int| 0 <= i < ls.len() implies strip_cr(#[trigger] ls[i]) == ls[i] by {
        assert(!(ls[i].len() > 0 && ls[i].last() == '\r'));
    }
    assert(ls.map_values(|p: Seq<char>| strip_cr(p)) =~= ls);
}

proof fn lemma_ended_lines(ls: Seq<Seq<char>>)
    requires
        forall|i: int, j: int|
            0 <= i < ls.len() && 0 <= j < ls[i].len() ==> #[trigger] ls[i][j] != '\n',
    ensures
        split(ended_lines(ls), Cut::At('\n')) == ls.push(Seq::empty()),
    decreases ls.len(),
{
    let cut = Cut::At('\n');
    let none = Seq::<char>::empty();
    if ls.len() == 0 {
        assert(split(none, cut) =~= ls.push(none));
    } else {
        let front = ls.drop_last();
        let l = ls.last();
        assert forall|i: int, j: int|
            0 <= i < front.len() && 0 <= j < front[i].len() implies #[trigger] front[i][j] != '\n' by {
            assert(ls[i][j] != '\n');
        }
        assert forall|j: int| 0 <= j < l.len() implies !cut.cuts(#[trigger] l[j]) by {
            assert(ls[ls.len() - 1][j] != '\n');
        }
        lemma_ended_lines(front);
        let s = ended_lines(front);
        let x = s + l;
        assert(x + seq!['\n'] =~= x + seq!['\n'] + none);
        lemma_split_tail(x, '\n', none, cut);
        if front.len() == 0 {
            assert(s =~= none);
            assert(x =~= l);
            lemma_split_whole(l, cut);
            assert(seq![l].push(none) =~= ls.push(none));
        } else {
            let t = ended_lines(front.drop_last()) + front.last();
            assert(s =~= t + seq!['\n']);
            assert(x =~= t + seq!['\n'] + l);
            lemma_split_tail(t, '\n', l, cut);
            assert(s =~= t + seq!['\n'] + none);
            lemma_split_tail(t, '\n', none, cut);
            assert(split(t, cut) =~= front) by {
                assert(split(t, cut).push(none) == front.push(none));
                assert(split(t, cut).push(none).drop_last() =~= split(t, cut));
                assert(front.push(none).drop_last() =~= front);
            }
            assert(front.push(l) =~= ls);
        }
    }
}

/// Making letters small concerns the ASCII capitals, one by one, and nothing else.
pub proof fn law_lower(s: Seq<char>, i: int)
    requires
        0 <= i < s.len(),
    ensures
        lower(s).len() == s.len(),
        'A' <= s[i] && s[i] <= 'Z' ==> lower(s)[i] as int == s[i] as int + 32,
        !('A' <= s[i] && s[i] <= 'Z') ==> lower(s)[i] == s[i],
        lower(lower(s)) == lower(s),
{
    assert(lower(lower(s)) =~= lower(s)) by {
        assert forall|j: int| 0 <= j < s.len() implies lower_char(lower_char(s[j])) == lower_char(
            #[trigger] s[j],
        ) by {}
    }
}

/// The number that decimal digits stand for.
pub open spec fn decimal_value(s: Seq<char>) -> int
    decreases s.len(),
{
    if s.len() == 0 {
        0
    } else {
        10 * decimal_value(s.drop_last()) + (s.last() as int - '0' as int)
    }
}

/// A number in decimal stands for that number, and has no zero in front.
pub proof fn law_decimal(n: nat)
    ensures
        decimal_value(decimal(n)) == n,
        decimal(n).len() > 0,
        n > 0 ==> decimal(n)[0] != '0',
        forall|i: int| 0 <= i < decimal(n).len() ==> '0' <= #[trigger] decimal(n)[i] && decimal(n)[i]
            <= '9',
    decreases n,
{
    if n < 10 {
        let s = seq![digit(n)];
        assert(s.drop_last() =~= Seq::empty());
        assert(decimal_value(s.drop_last()) == 0);
        assert(s.last() == digit(n));
    } else {
        law_decimal(n / 10);
        let front = decimal(n / 10);
        let s = decimal(n);
        assert(s.drop_last() =~= front);
        assert(s[0] == front[0]);
        assert forall|i: int| 0 <= i < s.len() implies '0' <= #[trigger] s[i] && s[i] <= '9' by {
            if i < front.len() {
                assert(s[i] == front[i]);
            }
        }
    }
}

/// A text occurs in another where some part of the other is that text.
pub proof fn law_has_within(s: Seq<char>, p: Seq<char>)
    ensures
        has_within(s, p) <==> exists|i: int|
            0 <= i && i + p.len() <= s.len() && #[trigger] s.subrange(i, i + p.len()) == p,
{
    lemma_find(s, p);
}

/// A list is shown in brackets, its items in order with a comma between each two.
pub proof fn law_shown_lists(v: Seq<Seq<char>>, t: Seq<char>)
    ensures
        debug_list(Seq::empty()) == "[]"@,
        debug_list(seq![t]) == "["@ + debug_text(t) + "]"@,
        v.len() > 0 ==> debug_list(v.push(t)) == debug_list(v).drop_last() + ", "@ + debug_text(t)
            + "]"@,
{
    reveal_strlit("[]");
    reveal_strlit("[");
    reveal_strlit("]");
    let f = |t: Seq<char>| debug_text(t);
    let none = Seq::<Seq<char>>::empty();
    assert(none.map_values(f) =~= none);
    assert(debug_list(none) =~= "[]"@);
    assert(seq![t].map_values(f) =~= seq![debug_text(t)]);
    assert(seq![debug_text(t)].drop_last() =~= none);
    assert(join(seq![debug_text(t)], ", "@) =~= debug_text(t));
    if v.len() > 0 {
        let m = v.map_values(f);
        let all = m.push(debug_text(t));
        assert(v.push(t).map_values(f) =~= all);
        assert(all.drop_last() =~= m);
        assert(join(all, ", "@) == join(m, ", "@) + ", "@ + debug_text(t));
        assert(debug_list(v).drop_last() =~= "["@ + join(m, ", "@));
        assert(debug_list(v.push(t)) =~= debug_list(v).drop_last() + ", "@ + debug_text(t) + "]"@);
    }
}

} // verus!
