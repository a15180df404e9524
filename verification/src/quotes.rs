//! Which words of a text are in quotes.
//!
//! A line is a row of tokens: bare words between white space, and what stands in
//! quotes. Inside quotes a backslash keeps the character behind it from ending them.
//! Restoring quotes puts bare words in quotes again and keeps every token apart from
//! its neighbours, so that a line holds the same tokens as before.
use vstd::prelude::*;
use crate::proj_write;
use crate::text;

verus! {

// ---------------------------------------------------------------------------
// Pieces
// ---------------------------------------------------------------------------

/// How far a text has been cut at its quotes: its pieces, of which every second one
/// stood in quotes, and whether a backslash waits for the character behind it.
pub struct Cutting {
    pub pieces: Seq<Seq<char>>,
    pub escaped: bool,
}

/// How a text is cut at its quotes.
pub open spec fn cutting(s: Seq<char>) -> Cutting
    decreases s.len(),
{
    if s.len() == 0 {
        Cutting { pieces: seq![Seq::empty()], escaped: false }
    } else {
        let front = cutting(s.drop_last());
        let c = s.last();
        let inside = front.pieces.len() % 2 == 0;
        if c == '"' && !front.escaped {
            Cutting { pieces: front.pieces.push(Seq::empty()), escaped: false }
        } else {
            Cutting {
                pieces: front.pieces.drop_last().push(front.pieces.last().push(c)),
                escaped: inside && c == '\\' && !front.escaped,
            }
        }
    }
}

/// The pieces of a text between its quotes.
pub open spec fn pieces(s: Seq<char>) -> Seq<Seq<char>> {
    cutting(s).pieces
}

/// Whether every quote that is opened in a text is closed.
pub open spec fn balanced(s: Seq<char>) -> bool {
    pieces(s).len() % 2 == 1
}

fn cut(s: &str) -> (out: Vec<String>)
    ensures
        text::texts(out@) == pieces(s@),
        out@.len() >= 1,
{
    let cs = text::chars_of(s);
    let mut out: Vec<String> = Vec::new();
    let mut cur = String::new();
    let mut escaped = false;
    let mut inside = false;
    let mut i: usize = 0;
    proof {
        assert(text::texts(out@).push(cur@) =~= cutting(s@.take(0)).pieces);
    }
    while i < cs.len()
        invariant
            cs@ == s@,
            i <= cs@.len(),
            text::texts(out@).push(cur@) == cutting(s@.take(i as int)).pieces,
            escaped == cutting(s@.take(i as int)).escaped,
            inside == (cutting(s@.take(i as int)).pieces.len() % 2 == 0),
        decreases cs@.len() - i,
    {
        let c = cs[i];
        let ghost before = text::texts(out@).push(cur@);
        proof {
            assert(s@.take(i + 1).drop_last() =~= s@.take(i as int));
            assert(s@.take(i + 1).last() == c);
            assert(before.drop_last() =~= text::texts(out@));
        }
        if c == '"' && !escaped {
            text::push_text(&mut out, cur.as_str());
            cur = String::new();
            escaped = false;
            inside = !inside;
        } else {
            cur.push(c);
            escaped = inside && c == '\\' && !escaped;
        }
        i += 1;
    }
    text::push_text(&mut out, cur.as_str());
    proof {
        assert(s@.take(i as int) =~= s@);
        assert(text::texts(out@).len() == out@.len());
    }
    out
}

/// Every second one of some texts, from the second on.
pub open spec fn every_second(v: Seq<Seq<char>>) -> Seq<Seq<char>>
    decreases v.len(),
{
    if v.len() < 2 {
        Seq::empty()
    } else {
        seq![v[1]] + every_second(v.skip(2))
    }
}

/// The words that a text has in quotes.
pub open spec fn quoted_words(s: Seq<char>) -> Seq<Seq<char>> {
    every_second(pieces(s))
}

/// The words that a text has in quotes.
pub fn quoted_of(original: &str) -> (out: Vec<String>)
    ensures
        text::texts(out@) == quoted_words(original@),
{
    let parts = cut(original);
    let ghost all = text::texts(parts@);
    let mut out = text::none();
    let mut i: usize = 0;
    proof {
        assert(all.skip(0) =~= all);
    }
    while parts.len() - i >= 2
        invariant
            i <= parts@.len(),
            all == text::texts(parts@),
            every_second(all) == text::texts(out@) + every_second(all.skip(i as int)),
        decreases parts@.len() - i,
    {
        let ghost rest = all.skip(i as int);
        let ghost before = text::texts(out@);
        text::push_text(&mut out, parts[i + 1].as_str());
        proof {
            assert(rest[1] == parts@[i + 1]@);
            assert(rest.skip(2) =~= all.skip(i + 2));
            assert(before + (seq![rest[1]] + every_second(all.skip(i + 2))) =~= before.push(rest[1])
                + every_second(all.skip(i + 2)));
        }
        i += 2;
    }
    proof {
        assert(every_second(all.skip(i as int)) =~= Seq::empty());
        assert(text::texts(out@) + Seq::empty() =~= text::texts(out@));
    }
    out
}

// ---------------------------------------------------------------------------
// Tokens
// ---------------------------------------------------------------------------

/// One token of a line.
pub enum Token {
    Bare(String),
    Quoted(String),
}

/// The model of a [`Token`].
pub enum TokenV {
    Bare(Seq<char>),
    Quoted(Seq<char>),
}

impl View for Token {
    type V = TokenV;

    open spec fn view(&self) -> TokenV {
        match *self {
            Token::Bare(w) => TokenV::Bare(w@),
            Token::Quoted(q) => TokenV::Quoted(q@),
        }
    }
}

/// The model of a list of [`Token`]s.
pub open spec fn token_views(v: Seq<Token>) -> Seq<TokenV> {
    v.map_values(|t: Token| t@)
}

/// Words as tokens.
pub open spec fn bare(words: Seq<Seq<char>>) -> Seq<TokenV> {
    words.map_values(|w: Seq<char>| TokenV::Bare(w))
}

/// The tokens that some pieces are made of.
pub open spec fn tokens_in(parts: Seq<Seq<char>>) -> Seq<TokenV>
    decreases parts.len(),
{
    if parts.len() == 0 {
        Seq::empty()
    } else if parts.len() % 2 == 0 {
        tokens_in(parts.drop_last()).push(TokenV::Quoted(parts.last()))
    } else {
        tokens_in(parts.drop_last()) + bare(text::white_words(parts.last()))
    }
}

/// The tokens of a line.
pub open spec fn tokens(line: Seq<char>) -> Seq<TokenV> {
    tokens_in(pieces(text::trim_start(line)))
}

/// A token with its quotes restored: a bare word that is not the first of its line
/// and is one of the quoted ones.
pub open spec fn restored_token(t: TokenV, first: bool, quoted: Seq<Seq<char>>) -> TokenV {
    match t {
        TokenV::Bare(w) => if !first && quoted.contains(w) {
            TokenV::Quoted(w)
        } else {
            t
        },
        TokenV::Quoted(_) => t,
    }
}

/// The tokens of a line with their quotes restored.
pub open spec fn restored_tokens(ts: Seq<TokenV>, quoted: Seq<Seq<char>>) -> Seq<TokenV> {
    Seq::new(ts.len(), |i: int| restored_token(ts[i], i == 0, quoted))
}

/// A text in quotes.
pub open spec fn in_quotes(s: Seq<char>) -> Seq<char> {
    "\""@ + s + "\""@
}

/// How a token is written.
pub open spec fn shown(t: TokenV) -> Seq<char> {
    match t {
        TokenV::Bare(w) => w,
        TokenV::Quoted(q) => in_quotes(q),
    }
}

/// Tokens in a row, each with a blank behind it.
pub open spec fn written(ts: Seq<TokenV>) -> Seq<char>
    decreases ts.len(),
{
    if ts.len() == 0 {
        Seq::empty()
    } else {
        written(ts.drop_last()) + shown(ts.last()) + " "@
    }
}

/// A text without one blank at its end.
pub open spec fn without_blank(s: Seq<char>) -> Seq<char> {
    if s.len() > 0 && s.last() == ' ' {
        s.drop_last()
    } else {
        s
    }
}

/// A line with its quotes restored: its indentation, and its tokens with a blank
/// between each two of them.
pub open spec fn line_restored(line: Seq<char>, quoted: Seq<Seq<char>>) -> Seq<char> {
    let lead = line.take(text::lead_len(line) as int);
    without_blank(lead + written(restored_tokens(tokens(line), quoted)))
}

/// Some lines with their quotes restored, each with its end.
pub open spec fn lines_restored(lines: Seq<Seq<char>>, quoted: Seq<Seq<char>>) -> Seq<char>
    decreases lines.len(),
{
    if lines.len() == 0 {
        Seq::empty()
    } else {
        lines_restored(lines.drop_last(), quoted) + line_restored(lines.last(), quoted) + "\n"@
    }
}

/// A text with the quotes of another restored in it.
pub open spec fn restored(original: Seq<char>, out: Seq<char>) -> Seq<char> {
    let quoted = quoted_words(original);
    if quoted.len() == 0 {
        out
    } else {
        lines_restored(text::lines(out), quoted)
    }
}

fn push_bare(out: &mut Vec<Token>, words: &[String])
    ensures
        token_views(final(out)@) == token_views(old(out)@) + bare(text::texts(words@)),
{
    let ghost before = token_views(out@);
    let ghost want = bare(text::texts(words@));
    let mut i: usize = 0;
    proof {
        assert(before + want.take(0) =~= before);
    }
    while i < words.len()
        invariant
            i <= words@.len(),
            want == bare(text::texts(words@)),
            token_views(out@) == before + want.take(i as int),
        decreases words@.len() - i,
    {
        let ghost so_far = token_views(out@);
        let one = Token::Bare(words[i].clone());
        proof {
            assert(want[i as int] == one@);
            assert(token_views(out@.push(one)) =~= so_far.push(one@));
            assert(before + want.take(i + 1) =~= so_far.push(want[i as int]));
        }
        out.push(one);
        i += 1;
    }
    proof {
        assert(want.take(i as int) =~= want);
    }
}

fn tokens_of(line: &str) -> (out: Vec<Token>)
    ensures
        token_views(out@) == tokens(line@),
{
    let rest = text::text_trim_start(line);
    let parts = cut(rest.as_str());
    let ghost all = text::texts(parts@);
    let mut out: Vec<Token> = Vec::new();
    let mut i: usize = 0;
    proof {
        assert(all.take(0) =~= Seq::empty());
        assert(token_views(out@) =~= Seq::empty());
    }
    while i < parts.len()
        invariant
            i <= parts@.len(),
            all == text::texts(parts@),
            token_views(out@) == tokens_in(all.take(i as int)),
        decreases parts@.len() - i,
    {
        proof {
            assert(all.take(i + 1).drop_last() =~= all.take(i as int));
            assert(all.take(i + 1).last() == parts@[i as int]@);
        }
        if i % 2 == 1 {
            let ghost so_far = token_views(out@);
            let one = Token::Quoted(parts[i].clone());
            proof {
                assert(token_views(out@.push(one)) =~= so_far.push(one@));
            }
            out.push(one);
        } else {
            let words = text::split_whitespace(parts[i].as_str());
            push_bare(&mut out, words.as_slice());
        }
        i += 1;
    }
    proof {
        assert(all.take(i as int) =~= all);
    }
    out
}

fn append_quoted(out: &mut String, s: &str)
    ensures
        final(out)@ == old(out)@ + in_quotes(s@),
{
    let ghost before = out@;
    out.append("\"");
    out.append(s);
    out.append("\"");
    proof {
        assert(out@ =~= before + in_quotes(s@));
    }
}

/// Restore the quotes of a line.
pub fn restore_line(line: &str, quoted: &[String]) -> (out: String)
    ensures
        out@ == line_restored(line@, text::texts(quoted@)),
{
    let cs = text::chars_of(line);
    let lead: usize = text::lead_count(&cs);
    let mut out = text::slice_text(&cs, 0, lead);
    let ghost lv = line@.take(text::lead_len(line@) as int);
    let ghost qs = text::texts(quoted@);
    let ts = tokens_of(line);
    let ghost want = restored_tokens(tokens(line@), qs);
    let mut i: usize = 0;
    proof {
        text::lemma_trim_start(line@);
        assert(out@ =~= lv);
        assert(want.take(0) =~= Seq::empty());
        assert(lv + Seq::empty() =~= lv);
    }
    while i < ts.len()
        invariant
            i <= ts@.len(),
            token_views(ts@) == tokens(line@),
            qs == text::texts(quoted@),
            want == restored_tokens(tokens(line@), qs),
            out@ == lv + written(want.take(i as int)),
        decreases ts@.len() - i,
    {
        let ghost done = written(want.take(i as int));
        proof {
            assert(tokens(line@)[i as int] == ts@[i as int]@);
            assert(want.take(i + 1).drop_last() =~= want.take(i as int));
            assert(want.take(i + 1).last() == want[i as int]);
        }
        match &ts[i] {
            Token::Bare(w) => {
                if i > 0 && text::has_text(quoted, w.as_str()) {
                    append_quoted(&mut out, w.as_str());
                } else {
                    out.append(w.as_str());
                }
            },
            Token::Quoted(q) => append_quoted(&mut out, q.as_str()),
        }
        out.append(" ");
        proof {
            assert(out@ =~= lv + (done + shown(want[i as int]) + " "@));
        }
        i += 1;
    }
    proof {
        assert(ts@.len() == tokens(line@).len());
        assert(want.take(i as int) =~= want);
    }
    let done = text::chars_of(out.as_str());
    if done.len() > 0 && done[done.len() - 1] == ' ' {
        let short = text::slice_text(&done, 0, done.len() - 1);
        proof {
            assert(short@ =~= out@.drop_last());
        }
        short
    } else {
        out
    }
}

// ---------------------------------------------------------------------------
// Laws
// ---------------------------------------------------------------------------

proof fn lemma_no_quotes(s: Seq<char>)
    requires
        forall|i: int| 0 <= i < s.len() ==> #[trigger] s[i] != '"',
    ensures
        cutting(s) == (Cutting { pieces: seq![s], escaped: false }),
    decreases s.len(),
{
    if s.len() > 0 {
        lemma_no_quotes(s.drop_last());
        assert(s.drop_last().push(s.last()) =~= s);
        assert(s[s.len() - 1] != '"');
        assert(cutting(s).pieces =~= seq![s]);
    } else {
        assert(s =~= Seq::empty());
    }
}

/// A manifest without quotes is left as it is written.
pub proof fn law_nothing_to_restore(original: Seq<char>, out: Seq<char>)
    requires
        !original.contains('"'),
    ensures
        restored(original, out) == out,
{
    assert forall|i: int| 0 <= i < original.len() implies #[trigger] original[i] != '"' by {
        assert(original.contains(original[i]));
    }
    lemma_no_quotes(original);
}

/// Whether a text stands somewhere in another.
#[verifier::opaque]
pub open spec fn stands_in(part: Seq<char>, s: Seq<char>) -> bool {
    exists|i: int|
        0 <= i && i + part.len() <= s.len() && #[trigger] s.subrange(i, i + part.len()) == part
}

proof fn lemma_stands_in_sum(part: Seq<char>, a: Seq<char>, b: Seq<char>)
    ensures
        stands_in(part, part),
        stands_in(part, a) ==> stands_in(part, a + b),
        stands_in(part, b) ==> stands_in(part, a + b),
{
    reveal(stands_in);
    let at = 0int;
    assert(part.subrange(at, at + part.len()) =~= part);
    if stands_in(part, a) {
        let i = choose|i: int|
            0 <= i && i + part.len() <= a.len() && #[trigger] a.subrange(i, i + part.len()) == part;
        assert((a + b).subrange(i, i + part.len()) =~= part);
    }
    if stands_in(part, b) {
        let i = choose|i: int|
            0 <= i && i + part.len() <= b.len() && #[trigger] b.subrange(i, i + part.len()) == part;
        let j = a.len() + i;
        assert((a + b).subrange(j, j + part.len()) =~= b.subrange(i, i + part.len()));
        assert((a + b).subrange(j, j + part.len()) == part);
    }
}

proof fn lemma_token_stands(ts: Seq<TokenV>, k: int)
    requires
        0 <= k < ts.len(),
    ensures
        stands_in(shown(ts[k]) + " "@, written(ts)),
    decreases ts.len(),
{
    let front = written(ts.drop_last());
    let part = shown(ts[k]) + " "@;
    let last = shown(ts.last()) + " "@;
    assert(written(ts) =~= front + last);
    if k < ts.len() - 1 {
        lemma_token_stands(ts.drop_last(), k);
        assert(ts.drop_last()[k] == ts[k]);
    } else {
        assert(part == last);
    }
    lemma_stands_in_sum(part, front, last);
}

/// A word that was quoted before the edit is in quotes again, wherever it is not the
/// first on its line.
pub proof fn law_quoted_words_come_back(
    line: Seq<char>,
    quoted: Seq<Seq<char>>,
    k: int,
    word: Seq<char>,
)
    requires
        0 < k < tokens(line).len(),
        tokens(line)[k] == TokenV::Bare(word),
        quoted.contains(word),
    ensures
        stands_in(in_quotes(word), line_restored(line, quoted)),
{
    let lead = line.take(text::lead_len(line) as int);
    let ts = restored_tokens(tokens(line), quoted);
    let body = written(ts);
    let part = in_quotes(word);
    assert(ts[k] == TokenV::Quoted(word));
    lemma_token_stands(ts, k);
    lemma_stands_in_sum(part + " "@, lead, body);
    let all = lead + body;
    reveal(stands_in);
    let i = choose|i: int|
        0 <= i && i + (part + " "@).len() <= all.len() && #[trigger] all.subrange(
            i,
            i + (part + " "@).len(),
        ) == part + " "@;
    reveal_strlit(" ");
    let out = without_blank(all);
    assert(out.subrange(i, i + part.len()) =~= (part + " "@).take(part.len() as int));
    assert((part + " "@).take(part.len() as int) =~= part);
}

/// Whether a text can stand in quotes: none of its characters ends them, and it does
/// not keep the closing one from doing so.
pub open spec fn closed(q: Seq<char>) -> bool {
    cutting(seq!['"'] + q) == (Cutting { pieces: seq![Seq::empty(), q], escaped: false })
}

/// Whether a text can stand as a bare word.
pub open spec fn is_word(w: Seq<char>) -> bool {
    w.len() > 0 && forall|i: int|
        0 <= i < w.len() ==> #[trigger] w[i] != '"' && !text::is_white(w[i])
}

/// Whether a token reads back as itself.
pub open spec fn sound(t: TokenV) -> bool {
    match t {
        TokenV::Bare(w) => is_word(w),
        TokenV::Quoted(q) => closed(q),
    }
}

proof fn lemma_outside(s: Seq<char>)
    ensures
        cutting(s).pieces.len() >= 1,
        balanced(s) ==> !cutting(s).escaped,
    decreases s.len(),
{
    if s.len() > 0 {
        lemma_outside(s.drop_last());
    }
}

/// Pieces followed by other pieces, of which the first goes on where the last ended.
spec fn glued(a: Seq<Seq<char>>, b: Seq<Seq<char>>) -> Seq<Seq<char>> {
    a.drop_last().push(a.last() + b[0]) + b.skip(1)
}

proof fn lemma_glued(a: Seq<char>, b: Seq<char>)
    requires
        balanced(a),
    ensures
        cutting(a + b) == (Cutting {
            pieces: glued(pieces(a), pieces(b)),
            escaped: cutting(b).escaped,
        }),
    decreases b.len(),
{
    let x = pieces(a);
    lemma_outside(a);
    if b.len() == 0 {
        assert(a + b =~= a);
        assert(x.last() + Seq::<char>::empty() =~= x.last());
        assert(glued(x, pieces(b)) =~= x);
    } else {
        let front = b.drop_last();
        let c = b.last();
        let y = pieces(front);
        lemma_outside(front);
        lemma_glued(a, front);
        assert((a + b).drop_last() =~= a + front);
        assert((a + b).last() == c);
        let g = glued(x, y);
        assert(g.len() == x.len() + y.len() - 1);
        if c == '"' && !cutting(front).escaped {
            assert(pieces(b) == y.push(Seq::empty()));
            assert(glued(x, pieces(b)) =~= g.push(Seq::empty()));
        } else {
            let z = y.drop_last().push(y.last().push(c));
            assert(pieces(b) == z);
            if y.len() == 1 {
                assert(g.last() == x.last() + y[0]);
                assert(x.last() + z[0] =~= g.last().push(c));
                assert(glued(x, z) =~= g.drop_last().push(g.last().push(c)));
            } else {
                assert(g.last() == y.last());
                assert(glued(x, z) =~= g.drop_last().push(g.last().push(c)));
            }
        }
    }
}

proof fn lemma_pieces(s: Seq<char>)
    ensures
        forall|k: int|
            0 <= k < pieces(s).len() - 1 && k % 2 == 1 ==> closed(#[trigger] pieces(s)[k]),
        !balanced(s) ==> cutting(seq!['"'] + pieces(s).last()) == (Cutting {
            pieces: seq![Seq::empty(), pieces(s).last()],
            escaped: cutting(s).escaped,
        }),
        forall|k: int, j: int|
            0 <= k < pieces(s).len() && k % 2 == 0 && 0 <= j < pieces(s)[k].len()
                ==> #[trigger] pieces(s)[k][j] != '"',
    decreases s.len(),
{
    lemma_outside(s);
    if s.len() > 0 {
        let front = s.drop_last();
        let c = s.last();
        let y = pieces(front);
        let z = pieces(s);
        lemma_outside(front);
        lemma_pieces(front);
        if c == '"' && !cutting(front).escaped {
            assert(z == y.push(Seq::empty()));
            assert forall|k: int| 0 <= k < z.len() - 1 && k % 2 == 1 implies closed(
                #[trigger] z[k],
            ) by {
                if k < y.len() - 1 {
                    assert(closed(y[k]));
                } else {
                    assert(z[k] == y.last());
                }
            }
            assert forall|k: int, j: int|
                0 <= k < z.len() && k % 2 == 0 && 0 <= j < z[k].len() implies #[trigger] z[k][j]
                != '"' by {
                assert(z[k][j] == y[k][j]);
            }
            if !balanced(s) {
                assert(z.last() =~= Seq::empty());
                let one = seq!['"'];
                assert(one + z.last() =~= one);
                assert(one.drop_last() =~= Seq::empty());
                assert(cutting(one.drop_last()).pieces =~= seq![Seq::<char>::empty()]);
                assert(one.last() == '"');
                assert(cutting(one).pieces =~= seq![Seq::<char>::empty(), Seq::<char>::empty()]);
            }
        } else {
            let last = y.last().push(c);
            assert(z == y.drop_last().push(last));
            assert forall|k: int| 0 <= k < z.len() - 1 && k % 2 == 1 implies closed(
                #[trigger] z[k],
            ) by {
                assert(z[k] == y[k]);
                assert(closed(y[k]));
            }
            assert forall|k: int, j: int|
                0 <= k < z.len() && k % 2 == 0 && 0 <= j < z[k].len() implies #[trigger] z[k][j]
                != '"' by {
                if k < z.len() - 1 || j < y.last().len() {
                    assert(z[k][j] == y[k][j]);
                } else {
                    assert(z[k][j] == c);
                    lemma_outside(front);
                }
            }
            if !balanced(s) {
                let w = seq!['"'] + last;
                assert(w.drop_last() =~= seq!['"'] + y.last());
                assert(w.last() == c);
                assert(cutting(w).pieces =~= seq![Seq::empty(), last]);
            }
        }
    } else {
        assert(s =~= Seq::empty());
    }
}

proof fn lemma_quoted_pieces_closed(parts: Seq<Seq<char>>, k: int)
    requires
        parts.len() % 2 == 1,
        forall|j: int| 0 <= j < parts.len() - 1 && j % 2 == 1 ==> closed(#[trigger] parts[j]),
        0 <= k < every_second(parts).len(),
    ensures
        closed(every_second(parts)[k]),
    decreases parts.len(),
{
    if parts.len() >= 2 {
        let rest = parts.skip(2);
        if k == 0 {
            assert(every_second(parts)[0] == parts[1]);
        } else {
            assert forall|j: int| 0 <= j < rest.len() - 1 && j % 2 == 1 implies closed(
                #[trigger] rest[j],
            ) by {
                assert(rest[j] == parts[j + 2]);
            }
            lemma_quoted_pieces_closed(rest, k - 1);
            assert(every_second(parts)[k] == every_second(rest)[k - 1]);
        }
    }
}

proof fn lemma_words_sound(p: Seq<char>)
    requires
        forall|j: int| 0 <= j < p.len() ==> #[trigger] p[j] != '"',
    ensures
        forall|i: int|
            0 <= i < text::white_words(p).len() ==> is_word(#[trigger] text::white_words(p)[i]),
{
    let parts = text::split(p, text::Cut::White);
    let words = text::white_words(p);
    text::lemma_filled(parts);
    text::lemma_split_parts(p, text::Cut::White);
    assert forall|i: int| 0 <= i < words.len() implies is_word(#[trigger] words[i]) by {
        assert(words[i].len() > 0);
        assert(parts.contains(words[i]));
        let k = choose|k: int| 0 <= k < parts.len() && parts[k] == words[i];
        assert forall|j: int| 0 <= j < words[i].len() implies #[trigger] words[i][j] != '"'
            && !text::is_white(words[i][j]) by {
            assert(!text::Cut::White.cuts(parts[k][j]));
            assert(p.contains(parts[k][j]));
            let m = choose|m: int| 0 <= m < p.len() && p[m] == parts[k][j];
            assert(p[m] != '"');
        }
    }
}

proof fn lemma_tokens_sound(parts: Seq<Seq<char>>)
    requires
        forall|k: int| 0 <= k < parts.len() && k % 2 == 1 ==> closed(#[trigger] parts[k]),
        forall|k: int, j: int|
            0 <= k < parts.len() && k % 2 == 0 && 0 <= j < parts[k].len() ==> #[trigger] parts[k][j]
                != '"',
    ensures
        forall|i: int| 0 <= i < tokens_in(parts).len() ==> sound(#[trigger] tokens_in(parts)[i]),
    decreases parts.len(),
{
    if parts.len() > 0 {
        let front = parts.drop_last();
        let n = parts.len() - 1;
        assert forall|k: int| 0 <= k < front.len() && k % 2 == 1 implies closed(
            #[trigger] front[k],
        ) by {
            assert(closed(parts[k]));
        }
        assert forall|k: int, j: int|
            0 <= k < front.len() && k % 2 == 0 && 0 <= j < front[k].len() implies #[trigger] front[k][j]
            != '"' by {
            assert(parts[k][j] != '"');
        }
        lemma_tokens_sound(front);
        let some = tokens_in(front);
        let all = tokens_in(parts);
        if parts.len() % 2 == 1 {
            assert forall|j: int| 0 <= j < parts[n].len() implies #[trigger] parts[n][j] != '"' by {
                assert(n % 2 == 0);
            }
            lemma_words_sound(parts[n]);
        } else {
            assert(closed(parts[n]));
        }
        assert forall|i: int| 0 <= i < all.len() implies sound(#[trigger] all[i]) by {
            if i < some.len() {
                assert(all[i] == some[i]);
            } else if parts.len() % 2 == 1 {
                let words = text::white_words(parts[n]);
                assert(all[i] == bare(words)[i - some.len()]);
                assert(is_word(words[i - some.len()]));
            }
        }
    }
}

/// Whether a text is empty or ends with a blank.
spec fn open_ended(s: Seq<char>) -> bool {
    s.len() == 0 || s.last() == ' '
}

proof fn lemma_word_behind(x: Seq<char>, w: Seq<char>)
    requires
        open_ended(x),
        is_word(w),
    ensures
        text::white_words(x + w) == text::white_words(x).push(w),
        text::white_words(x + w + seq![' ']) == text::white_words(x).push(w),
{
    let cut = text::Cut::White;
    let y = x + w;
    reveal(Seq::filter);
    assert forall|i: int| 0 <= i < w.len() implies !cut.cuts(#[trigger] w[i]) by {
        assert(!text::is_white(w[i]));
    }
    text::lemma_split_some(x, cut);
    if x.len() == 0 {
        assert(x =~= Seq::empty());
        assert(y =~= w);
        text::lemma_split_whole(w, cut);
        let before = text::split(x, cut);
        assert(before =~= seq![Seq::<char>::empty()]);
        lemma_filled_push(Seq::empty(), Seq::empty());
        lemma_filled_push(Seq::empty(), w);
        assert(Seq::<Seq<char>>::empty().push(Seq::empty()) =~= before);
        assert(Seq::<Seq<char>>::empty().push(w) =~= seq![w]);
        assert(text::filled(Seq::empty()) =~= Seq::empty());
    } else {
        let head = x.drop_last();
        assert(x =~= head + seq![' '] + Seq::empty());
        assert(y =~= head + seq![' '] + w);
        text::lemma_split_tail(head, ' ', Seq::empty(), cut);
        text::lemma_split_tail(head, ' ', w, cut);
        lemma_filled_push(text::split(head, cut), Seq::empty());
        lemma_filled_push(text::split(head, cut), w);
    }
    assert(y + seq![' '] =~= y + seq![' '] + Seq::empty());
    text::lemma_split_tail(y, ' ', Seq::empty(), cut);
    lemma_filled_push(text::split(y, cut), Seq::empty());
}

proof fn lemma_filled_push(v: Seq<Seq<char>>, t: Seq<char>)
    ensures
        text::filled(v.push(t)) == (if t.len() > 0 {
            text::filled(v).push(t)
        } else {
            text::filled(v)
        }),
{
    reveal(Seq::filter);
    assert(v.push(t).drop_last() =~= v);
}

proof fn lemma_bare_push(words: Seq<Seq<char>>, w: Seq<char>)
    ensures
        bare(words.push(w)) == bare(words).push(TokenV::Bare(w)),
{
    assert(bare(words.push(w)) =~= bare(words).push(TokenV::Bare(w)));
}

proof fn lemma_no_words()
    ensures
        bare(text::white_words(Seq::empty())) == Seq::<TokenV>::empty(),
        bare(text::white_words(seq![' '])) == Seq::<TokenV>::empty(),
{
    let none = Seq::<char>::empty();
    let cut = text::Cut::White;
    lemma_filled_push(Seq::empty(), none);
    reveal(Seq::filter);
    assert(text::filled(Seq::empty()) =~= Seq::empty());
    assert(text::split(none, cut) =~= Seq::<Seq<char>>::empty().push(none));
    assert(text::white_words(none) =~= Seq::empty());
    assert(seq![' '] =~= none + seq![' '] + none);
    text::lemma_split_tail(none, ' ', none, cut);
    lemma_filled_push(text::split(none, cut), none);
    assert(text::white_words(seq![' ']) =~= Seq::empty());
    assert(bare(Seq::empty()) =~= Seq::<TokenV>::empty());
}

/// A text whose tokens are known, with one more token behind it.
proof fn lemma_token_behind(s: Seq<char>, t: TokenV)
    requires
        balanced(s),
        open_ended(pieces(s).last()),
        sound(t),
    ensures
        balanced(s + shown(t)),
        tokens_in(pieces(s + shown(t))) == tokens_in(pieces(s)).push(t),
        balanced(s + shown(t) + " "@),
        tokens_in(pieces(s + shown(t) + " "@)) == tokens_in(pieces(s)).push(t),
        open_ended(pieces(s + shown(t) + " "@).last()),
{
    let a = pieces(s);
    let front = a.drop_last();
    let x = a.last();
    reveal_strlit(" ");
    reveal_strlit("\"");
    assert(" "@ =~= seq![' ']);
    assert("\""@ =~= seq!['"']);
    lemma_outside(s);
    match t {
        TokenV::Bare(w) => {
            lemma_no_quotes(w);
            lemma_glued(s, w);
            let b = pieces(s + w);
            assert(b =~= front.push(x + w));
            lemma_word_behind(x, w);
            lemma_bare_push(text::white_words(x), w);
            assert(b.drop_last() =~= front);
            assert(tokens_in(b) =~= tokens_in(a).push(t));
            let y = w + seq![' '];
            assert forall|i: int| 0 <= i < y.len() implies #[trigger] y[i] != '"' by {
                if i < w.len() {
                    assert(w[i] != '"');
                }
            }
            lemma_no_quotes(y);
            lemma_glued(s, y);
            assert(s + w + " "@ =~= s + y);
            let d = pieces(s + y);
            assert(x + y =~= x + w + seq![' ']);
            assert(d =~= front.push(x + y));
            assert(d.drop_last() =~= front);
            assert(tokens_in(d) =~= tokens_in(a).push(t));
        },
        TokenV::Quoted(q) => {
            lemma_no_words();
            let none = Seq::<char>::empty();
            let head = seq!['"'] + q;
            let y = head.push('"');
            assert(in_quotes(q) =~= y);
            assert(y.drop_last() =~= head);
            let ys = seq![none, q, none];
            assert(seq![none, q].push(none) =~= ys);
            assert(pieces(y) == ys);
            lemma_glued(s, y);
            let b = pieces(s + y);
            assert(x + none =~= x);
            assert(b =~= a.push(q).push(none));
            assert(b.drop_last() =~= a.push(q));
            assert(a.push(q).drop_last() =~= a);
            assert(tokens_in(a.push(q)) == tokens_in(a).push(t));
            assert(tokens_in(b) =~= tokens_in(a).push(t));
            let z = y.push(' ');
            assert(z.drop_last() =~= y);
            let zs = seq![none, q, seq![' ']];
            assert(none.push(' ') =~= seq![' ']);
            assert(pieces(z) =~= zs);
            lemma_glued(s, z);
            assert(s + in_quotes(q) + " "@ =~= s + z);
            let d = pieces(s + z);
            assert(d =~= a.push(q).push(seq![' ']));
            assert(d.drop_last() =~= a.push(q));
            assert(tokens_in(d) =~= tokens_in(a).push(t));
        },
    }
}

proof fn lemma_written_reads_back(ts: Seq<TokenV>)
    requires
        forall|i: int| 0 <= i < ts.len() ==> sound(#[trigger] ts[i]),
    ensures
        balanced(written(ts)),
        open_ended(pieces(written(ts)).last()),
        tokens_in(pieces(written(ts))) == ts,
        ts.len() > 0 ==> tokens_in(pieces(written(ts).drop_last())) == ts,
    decreases ts.len(),
{
    reveal_strlit(" ");
    if ts.len() == 0 {
        lemma_no_words();
        let one = seq![Seq::<char>::empty()];
        assert(written(ts) =~= Seq::empty());
        assert(pieces(written(ts)) =~= one);
        assert(one.drop_last() =~= Seq::empty());
        assert(one.last() =~= Seq::empty());
        assert(tokens_in(one.drop_last()) =~= Seq::empty());
        assert(tokens_in(one) =~= Seq::empty());
        assert(ts =~= Seq::empty());
    } else {
        let front = ts.drop_last();
        assert forall|i: int| 0 <= i < front.len() implies sound(#[trigger] front[i]) by {
            assert(front[i] == ts[i]);
        }
        lemma_written_reads_back(front);
        assert(sound(ts[ts.len() - 1]));
        lemma_token_behind(written(front), ts.last());
        assert(front.push(ts.last()) =~= ts);
        assert(written(ts).drop_last() =~= written(front) + shown(ts.last()));
    }
}

proof fn lemma_written_head(ts: Seq<TokenV>)
    requires
        ts.len() > 0,
        forall|i: int| 0 <= i < ts.len() ==> sound(#[trigger] ts[i]),
    ensures
        written(ts).len() >= 2,
        !text::is_white(written(ts)[0]),
        written(ts).last() == ' ',
    decreases ts.len(),
{
    reveal_strlit(" ");
    reveal_strlit("\"");
    let front = ts.drop_last();
    let t = ts.last();
    assert(sound(ts[ts.len() - 1]));
    assert(written(ts) == written(front) + shown(t) + " "@);
    assert(shown(t).len() > 0 && !text::is_white(shown(t)[0]));
    if front.len() > 0 {
        assert forall|i: int| 0 <= i < front.len() implies sound(#[trigger] front[i]) by {
            assert(front[i] == ts[i]);
        }
        lemma_written_head(front);
        assert(written(ts)[0] == written(front)[0]);
    } else {
        assert(written(front) =~= Seq::empty());
        assert(written(ts)[0] == shown(t)[0]);
    }
}

proof fn lemma_trim_behind(lead: Seq<char>, s: Seq<char>)
    requires
        forall|i: int| 0 <= i < lead.len() ==> text::is_white(#[trigger] lead[i]),
        s.len() == 0 || !text::is_white(s[0]),
    ensures
        text::trim_start(lead + s) == s,
    decreases lead.len(),
{
    if lead.len() > 0 {
        let rest = lead.skip(1);
        assert forall|i: int| 0 <= i < rest.len() implies text::is_white(#[trigger] rest[i]) by {
            assert(text::is_white(lead[i + 1]));
        }
        lemma_trim_behind(rest, s);
        assert(text::is_white(lead[0]));
        assert((lead + s).skip(1) =~= rest + s);
    } else {
        assert(lead + s =~= s);
    }
}

proof fn lemma_lead_is_white(s: Seq<char>)
    ensures
        text::lead_len(s) <= s.len(),
        forall|i: int| 0 <= i < text::lead_len(s) ==> text::is_white(#[trigger] s[i]),
    decreases s.len(),
{
    text::lemma_trim_start(s);
    if s.len() > 0 && text::is_white(s[0]) {
        let rest = s.skip(1);
        lemma_lead_is_white(rest);
        text::lemma_trim_start(rest);
        assert forall|i: int| 0 <= i < text::lead_len(s) implies text::is_white(#[trigger] s[i]) by {
            if i > 0 {
                assert(rest[i - 1] == s[i]);
            }
        }
    }
}

/// Restoring quotes changes nothing of a line but which tokens are in quotes: read
/// again, it holds the same tokens in the same order, and exactly the words that
/// were quoted before the edit, the first of the line apart, have become quoted
/// ones. Left out are lines and texts that open a quote without closing it.
pub proof fn law_restored_lines_hold_the_same_tokens(original: Seq<char>, line: Seq<char>)
    requires
        balanced(original),
        balanced(text::trim_start(line)),
    ensures
        tokens(line_restored(line, quoted_words(original))) == restored_tokens(
            tokens(line),
            quoted_words(original),
        ),
{
    let quoted = quoted_words(original);
    let rest = text::trim_start(line);
    let lead = line.take(text::lead_len(line) as int);
    let ts = tokens(line);
    let out = restored_tokens(ts, quoted);
    let parts = pieces(rest);
    lemma_lead_is_white(line);
    assert forall|i: int| 0 <= i < lead.len() implies text::is_white(#[trigger] lead[i]) by {
        assert(text::is_white(line[i]));
    }
    lemma_pieces(rest);
    assert forall|k: int| 0 <= k < parts.len() && k % 2 == 1 implies closed(#[trigger] parts[k]) by {
        assert(k < parts.len() - 1);
    }
    lemma_tokens_sound(parts);
    lemma_pieces(original);
    assert forall|i: int| 0 <= i < out.len() implies sound(#[trigger] out[i]) by {
        assert(sound(ts[i]));
        if out[i] != ts[i] {
            let w = ts[i]->Bare_0;
            assert(quoted.contains(w));
            let k = choose|k: int| 0 <= k < quoted.len() && quoted[k] == w;
            lemma_quoted_pieces_closed(pieces(original), k);
        }
    }
    lemma_written_reads_back(out);
    let body = written(out);
    if out.len() > 0 {
        lemma_written_head(out);
        let whole = lead + body;
        assert(whole.last() == ' ');
        assert(without_blank(whole) =~= lead + body.drop_last());
        lemma_trim_behind(lead, body.drop_last());
    } else {
        let done = without_blank(lead + body);
        assert forall|i: int| 0 <= i < done.len() implies text::is_white(#[trigger] done[i]) by {
            assert(lead[i] == done[i]);
        }
        lemma_trim_behind(done, Seq::empty());
        assert(done + Seq::empty() =~= done);
        assert(pieces(Seq::empty()) == pieces(written(out)));
        assert(out =~= Seq::empty());
    }
}

/// The characters of a text that are neither white space nor quotes.
pub open spec fn plain_ink(s: Seq<char>) -> Seq<char> {
    proj_write::ink(s).filter(|c: char| c != '"')
}

/// The plain ink of texts in a row.
pub open spec fn plain_ink_all(v: Seq<Seq<char>>) -> Seq<char>
    decreases v.len(),
{
    if v.len() == 0 {
        Seq::empty()
    } else {
        plain_ink_all(v.drop_last()) + plain_ink(v.last())
    }
}

proof fn lemma_plain_add(a: Seq<char>, b: Seq<char>)
    ensures
        plain_ink(a + b) == plain_ink(a) + plain_ink(b),
{
    proj_write::lemma_ink_add(a, b);
    Seq::filter_distributes_over_add(proj_write::ink(a), proj_write::ink(b), |c: char| c != '"');
}

proof fn lemma_plain_char(c: char)
    ensures
        text::is_white(c) || c == '"' ==> plain_ink(seq![c]) == Seq::<char>::empty(),
        plain_ink(Seq::<char>::empty()) == Seq::<char>::empty(),
{
    reveal_with_fuel(Seq::filter, 2);
    assert(seq![c].drop_last() =~= Seq::empty());
    assert(seq![c].last() == c);
    let none = Seq::<char>::empty();
    assert(proj_write::ink(none) =~= none);
    if text::is_white(c) {
        assert(proj_write::ink(seq![c]) =~= none);
    } else {
        assert(proj_write::ink(seq![c]) =~= seq![c]);
    }
}

proof fn lemma_plain_of_split(s: Seq<char>, cut: text::Cut)
    requires
        forall|c: char| #[trigger] cut.cuts(c) ==> text::is_white(c) || c == '"',
    ensures
        plain_ink_all(text::split(s, cut)) == plain_ink(s),
    decreases s.len(),
{
    let all = text::split(s, cut);
    lemma_plain_char(' ');
    if s.len() == 0 {
        assert(s =~= Seq::empty());
        assert(all.drop_last() =~= Seq::empty());
        assert(all.last() =~= s);
        assert(plain_ink_all(Seq::empty()) =~= Seq::<char>::empty());
        assert(plain_ink_all(all) =~= plain_ink(s));
    } else {
        let front = text::split(s.drop_last(), cut);
        text::lemma_split_some(s.drop_last(), cut);
        lemma_plain_of_split(s.drop_last(), cut);
        assert(s =~= s.drop_last() + seq![s.last()]);
        lemma_plain_add(s.drop_last(), seq![s.last()]);
        lemma_plain_char(s.last());
        if cut.cuts(s.last()) {
            assert(all.drop_last() =~= front);
            assert(plain_ink_all(all) =~= plain_ink(s));
        } else {
            let grown = front.last().push(s.last());
            assert(all.drop_last() =~= front.drop_last());
            assert(grown =~= front.last() + seq![s.last()]);
            lemma_plain_add(front.last(), seq![s.last()]);
            assert(plain_ink_all(all) =~= plain_ink_all(front) + plain_ink(seq![s.last()]));
        }
    }
}

proof fn lemma_plain_of_filled(v: Seq<Seq<char>>)
    ensures
        plain_ink_all(text::filled(v)) == plain_ink_all(v),
    decreases v.len(),
{
    reveal(Seq::filter);
    if v.len() > 0 {
        let front = v.drop_last();
        lemma_plain_of_filled(front);
        lemma_plain_char(' ');
        if v.last().len() > 0 {
            assert(text::filled(v) =~= text::filled(front).push(v.last()));
            assert(text::filled(v).drop_last() =~= text::filled(front));
        } else {
            assert(v.last() =~= Seq::empty());
            assert(text::filled(v) =~= text::filled(front));
            assert(plain_ink_all(v) =~= plain_ink_all(front));
        }
    }
}

proof fn lemma_plain_in_quotes(s: Seq<char>)
    ensures
        plain_ink(in_quotes(s)) == plain_ink(s),
        plain_ink(" "@) == Seq::<char>::empty(),
        plain_ink("\n"@) == Seq::<char>::empty(),
{
    reveal_strlit("\"");
    reveal_strlit(" ");
    reveal_strlit("\n");
    assert("\""@ =~= seq!['"']);
    assert(" "@ =~= seq![' ']);
    assert("\n"@ =~= seq!['\n']);
    lemma_plain_char('"');
    lemma_plain_char(' ');
    lemma_plain_char('\n');
    lemma_plain_add("\""@ + s, "\""@);
    lemma_plain_add("\""@, s);
    assert(plain_ink(in_quotes(s)) =~= plain_ink(s));
}

proof fn lemma_plain_of_pieces(s: Seq<char>)
    ensures
        plain_ink_all(pieces(s)) == plain_ink(s),
    decreases s.len(),
{
    let all = pieces(s);
    lemma_plain_char(' ');
    lemma_outside(s);
    if s.len() == 0 {
        assert(s =~= Seq::empty());
        assert(all.drop_last() =~= Seq::empty());
        assert(all.last() =~= s);
        assert(plain_ink_all(Seq::empty()) =~= Seq::<char>::empty());
        assert(plain_ink_all(all) =~= plain_ink(s));
    } else {
        let front = pieces(s.drop_last());
        lemma_outside(s.drop_last());
        lemma_plain_of_pieces(s.drop_last());
        assert(s =~= s.drop_last() + seq![s.last()]);
        lemma_plain_add(s.drop_last(), seq![s.last()]);
        lemma_plain_char(s.last());
        if s.last() == '"' && !cutting(s.drop_last()).escaped {
            assert(all.drop_last() =~= front);
            assert(plain_ink_all(all) =~= plain_ink(s));
        } else {
            let grown = front.last().push(s.last());
            assert(all.drop_last() =~= front.drop_last());
            assert(grown =~= front.last() + seq![s.last()]);
            lemma_plain_add(front.last(), seq![s.last()]);
            assert(plain_ink_all(all) =~= plain_ink_all(front) + plain_ink(seq![s.last()]));
        }
    }
}

/// What tokens hold, without their quotes.
spec fn contents(ts: Seq<TokenV>) -> Seq<Seq<char>> {
    ts.map_values(
        |t: TokenV|
            match t {
                TokenV::Bare(w) => w,
                TokenV::Quoted(q) => q,
            },
    )
}

proof fn lemma_plain_all_add(a: Seq<Seq<char>>, b: Seq<Seq<char>>)
    ensures
        plain_ink_all(a + b) == plain_ink_all(a) + plain_ink_all(b),
    decreases b.len(),
{
    if b.len() > 0 {
        lemma_plain_all_add(a, b.drop_last());
        assert((a + b).drop_last() =~= a + b.drop_last());
        assert(plain_ink_all(a + b) =~= plain_ink_all(a) + plain_ink_all(b));
    } else {
        assert(a + b =~= a);
        assert(plain_ink_all(a + b) =~= plain_ink_all(a) + plain_ink_all(b));
    }
}

proof fn lemma_plain_of_tokens(parts: Seq<Seq<char>>)
    ensures
        plain_ink_all(contents(tokens_in(parts))) == plain_ink_all(parts),
    decreases parts.len(),
{
    if parts.len() > 0 {
        let front = contents(tokens_in(parts.drop_last()));
        let p = parts.last();
        let all = contents(tokens_in(parts));
        lemma_plain_of_tokens(parts.drop_last());
        if parts.len() % 2 == 0 {
            assert(all =~= front.push(p));
            assert(all.drop_last() =~= front);
        } else {
            let words = text::white_words(p);
            assert(all =~= front + words);
            lemma_plain_all_add(front, words);
            lemma_plain_of_filled(text::split(p, text::Cut::White));
            lemma_plain_of_split(p, text::Cut::White);
        }
    } else {
        assert(contents(tokens_in(parts)) =~= parts);
    }
}

proof fn lemma_plain_of_written(ts: Seq<TokenV>)
    ensures
        plain_ink(written(ts)) == plain_ink_all(contents(ts)),
    decreases ts.len(),
{
    lemma_plain_char(' ');
    if ts.len() > 0 {
        let front = written(ts.drop_last());
        let t = ts.last();
        let c = contents(ts).last();
        lemma_plain_of_written(ts.drop_last());
        assert(contents(ts).drop_last() =~= contents(ts.drop_last()));
        lemma_plain_in_quotes(c);
        lemma_plain_add(front + shown(t), " "@);
        lemma_plain_add(front, shown(t));
        assert(plain_ink(shown(t)) == plain_ink(c));
        assert(plain_ink(written(ts)) =~= plain_ink_all(contents(ts)));
    } else {
        assert(contents(ts) =~= Seq::empty());
    }
}

proof fn lemma_plain_of_line(line: Seq<char>, quoted: Seq<Seq<char>>)
    ensures
        plain_ink(line_restored(line, quoted)) == plain_ink(line),
{
    let lead = line.take(text::lead_len(line) as int);
    let rest = text::trim_start(line);
    let out = restored_tokens(tokens(line), quoted);
    let whole = lead + written(out);
    text::lemma_trim_start(line);
    assert(line =~= lead + rest);
    lemma_plain_add(lead, rest);
    lemma_plain_add(lead, written(out));
    lemma_plain_of_written(out);
    assert(contents(out) =~= contents(tokens(line)));
    lemma_plain_of_tokens(pieces(rest));
    lemma_plain_of_pieces(rest);
    if whole.len() > 0 && whole.last() == ' ' {
        assert(whole =~= whole.drop_last() + seq![' ']);
        lemma_plain_add(whole.drop_last(), seq![' ']);
        lemma_plain_char(' ');
        assert(plain_ink(whole.drop_last()) =~= plain_ink(whole));
    }
}

proof fn lemma_plain_of_lines(lines: Seq<Seq<char>>, quoted: Seq<Seq<char>>)
    ensures
        plain_ink(lines_restored(lines, quoted)) == plain_ink_all(lines),
    decreases lines.len(),
{
    lemma_plain_char(' ');
    if lines.len() > 0 {
        let front = lines_restored(lines.drop_last(), quoted);
        let line = line_restored(lines.last(), quoted);
        lemma_plain_of_lines(lines.drop_last(), quoted);
        lemma_plain_of_line(lines.last(), quoted);
        lemma_plain_in_quotes(line);
        lemma_plain_add(front + line, "\n"@);
        lemma_plain_add(front, line);
        assert(plain_ink(lines_restored(lines, quoted)) =~= plain_ink_all(lines));
    }
}

proof fn lemma_plain_ink_all(v: Seq<Seq<char>>)
    ensures
        plain_ink_all(v) == proj_write::ink_all(v).filter(|c: char| c != '"'),
    decreases v.len(),
{
    if v.len() > 0 {
        lemma_plain_ink_all(v.drop_last());
        Seq::filter_distributes_over_add(
            proj_write::ink_all(v.drop_last()),
            proj_write::ink(v.last()),
            |c: char| c != '"',
        );
    } else {
        reveal(Seq::filter);
    }
}

/// Restoring quotes changes nothing but quotes and white space.
pub proof fn law_restore_keeps_ink(original: Seq<char>, out: Seq<char>)
    ensures
        plain_ink(restored(original, out)) == plain_ink(out),
{
    let quoted = quoted_words(original);
    lemma_plain_of_lines(text::lines(out), quoted);
    lemma_plain_ink_all(text::lines(out));
    proj_write::lemma_ink_of_lines(out);
}

/// Quotes are restored line by line: where a text had words in quotes, every line of
/// the other is the one with those words' quotes restored, in order and with its end.
pub proof fn law_quotes_are_restored_line_by_line(original: Seq<char>, out: Seq<char>)
    ensures
        quoted_words(original).len() > 0 ==> restored(original, out) == text::ended_lines(
            text::lines(out).map_values(
                |l: Seq<char>| line_restored(l, quoted_words(original)),
            ),
        ),
{
    lemma_lines_restored(text::lines(out), quoted_words(original));
}

proof fn lemma_lines_restored(ls: Seq<Seq<char>>, quoted: Seq<Seq<char>>)
    ensures
        lines_restored(ls, quoted) == text::ended_lines(
            ls.map_values(|l: Seq<char>| line_restored(l, quoted)),
        ),
    decreases ls.len(),
{
    let f = |l: Seq<char>| line_restored(l, quoted);
    reveal_strlit("\n");
    assert("\n"@ =~= seq!['\n']);
    if ls.len() > 0 {
        lemma_lines_restored(ls.drop_last(), quoted);
        assert(ls.map_values(f).drop_last() =~= ls.drop_last().map_values(f));
        assert(ls.map_values(f).last() == line_restored(ls.last(), quoted));
    }
}

/// The words in quotes are what stands between an opening quote and the next one: a
/// word without quotes and backslashes, put in quotes at the end of a text whose
/// quotes are closed, is one more of them, and what follows without quotes is not.
pub proof fn law_what_stands_in_quotes(before: Seq<char>, word: Seq<char>, behind: Seq<char>)
    requires
        balanced(before),
        !cutting(before).escaped,
        forall|i: int| 0 <= i < word.len() ==> #[trigger] word[i] != '"' && word[i] != '\\',
        forall|i: int| 0 <= i < behind.len() ==> #[trigger] behind[i] != '"',
    ensures
        quoted_words(before + seq!['"'] + word + seq!['"'] + behind) == quoted_words(before).push(
            word,
        ),
{
    let a = before + seq!['"'];
    let b = a + word;
    let c = b + seq!['"'];
    assert(a.drop_last() =~= before && a.last() == '"');
    lemma_no_quote_behind(a, word, true);
    assert(pieces(a) == pieces(before).push(Seq::empty()));
    assert(c.drop_last() =~= b && c.last() == '"');
    assert(pieces(b) =~= pieces(before).push(word)) by {
        assert(Seq::<char>::empty() + word =~= word);
        assert(pieces(a).drop_last() =~= pieces(before));
    }
    assert(pieces(c) == pieces(b).push(Seq::empty()));
    lemma_no_quote_behind(c, behind, false);
    assert(pieces(c + behind) =~= pieces(before).push(word).push(behind)) by {
        assert(Seq::<char>::empty() + behind =~= behind);
        assert(pieces(c).drop_last() =~= pieces(before).push(word));
    }
    lemma_every_second_odd(pieces(before), word, behind);
}

proof fn lemma_no_quote_behind(a: Seq<char>, w: Seq<char>, inside: bool)
    requires
        a.len() > 0,
        !cutting(a).escaped,
        pieces(a).len() > 0,
        inside == (pieces(a).len() % 2 == 0),
        forall|i: int| 0 <= i < w.len() ==> #[trigger] w[i] != '"' && (inside ==> w[i] != '\\'),
    ensures
        pieces(a + w) == pieces(a).drop_last().push(pieces(a).last() + w),
        !cutting(a + w).escaped,
    decreases w.len(),
{
    if w.len() == 0 {
        assert(a + w =~= a);
        assert(pieces(a).last() + w =~= pieces(a).last());
        assert(pieces(a).drop_last().push(pieces(a).last()) =~= pieces(a));
    } else {
        let f = w.drop_last();
        assert forall|i: int| 0 <= i < f.len() implies #[trigger] f[i] != '"' && (inside ==> f[i]
            != '\\') by {
            assert(w[i] != '"');
        }
        lemma_no_quote_behind(a, f, inside);
        assert((a + w).drop_last() =~= a + f);
        assert((a + w).last() == w.last());
        assert(w[w.len() - 1] != '"');
        assert(f.push(w.last()) =~= w);
        assert((pieces(a).last() + f).push(w.last()) =~= pieces(a).last() + w);
        assert(pieces(a + f).drop_last() =~= pieces(a).drop_last());
    }
}

proof fn lemma_every_second_odd(v: Seq<Seq<char>>, x: Seq<char>, y: Seq<char>)
    requires
        v.len() % 2 == 1,
    ensures
        every_second(v.push(x).push(y)) == every_second(v).push(x),
    decreases v.len(),
{
    let all = v.push(x).push(y);
    if v.len() == 1 {
        assert(all[1] == x);
        assert(all.skip(2).len() == 1);
        assert(every_second(all.skip(2)) =~= Seq::empty());
        assert(every_second(all) =~= every_second(v).push(x));
    } else {
        lemma_every_second_odd(v.skip(2), x, y);
        assert(all.skip(2) =~= v.skip(2).push(x).push(y));
        assert(all[1] == v[1]);
        assert(every_second(all) =~= every_second(v).push(x));
    }
}

/// A restored line keeps its indentation.
pub proof fn law_restored_lines_keep_their_indentation(line: Seq<char>, quoted: Seq<Seq<char>>)
    requires
        tokens(line).len() > 0,
        written(restored_tokens(tokens(line), quoted)).len() > 1,
    ensures
        text::begins(line_restored(line, quoted), line.take(text::lead_len(line) as int)),
{
    let lead = line.take(text::lead_len(line) as int);
    let all = lead + written(restored_tokens(tokens(line), quoted));
    assert(all.take(lead.len() as int) =~= lead);
    assert(without_blank(all).take(lead.len() as int) =~= lead);
}

} // verus!
