//! Lists of strings as one string, so that the list can be read back whatever its
//! strings hold.
//!
//! Each string of a list is followed by a bar. A bar inside a string is written
//! `%p` and a percent sign `%%`, so that a bar always ends a string. Packed lists
//! can be packed again: the strings of a list may themselves be lists.
use vstd::prelude::*;
use crate::text;

verus! {

/// How one character is written.
pub open spec fn mark(c: char) -> Seq<char> {
    if c == '%' {
        seq!['%', '%']
    } else if c == '|' {
        seq!['%', 'p']
    } else {
        seq![c]
    }
}

/// A string with its bars and percent signs written out.
pub open spec fn escaped(s: Seq<char>) -> Seq<char>
    decreases s.len(),
{
    if s.len() == 0 {
        Seq::empty()
    } else {
        escaped(s.drop_last()) + mark(s.last())
    }
}

/// What was read of an escaped string so far, and whether a percent sign waits for
/// the character after it.
pub open spec fn reading(s: Seq<char>) -> (Seq<char>, bool)
    decreases s.len(),
{
    if s.len() == 0 {
        (Seq::empty(), false)
    } else {
        let (front, waits) = reading(s.drop_last());
        if waits {
            (front.push(
                if s.last() == 'p' {
                    '|'
                } else {
                    s.last()
                },
            ), false)
        } else if s.last() == '%' {
            (front, true)
        } else {
            (front.push(s.last()), false)
        }
    }
}

/// The string that an escaped one stands for.
pub open spec fn unescaped(s: Seq<char>) -> Seq<char> {
    reading(s).0
}

proof fn lemma_escaped(s: Seq<char>)
    ensures
        reading(escaped(s)) == (s, false),
        forall|i: int| 0 <= i < escaped(s).len() ==> #[trigger] escaped(s)[i] != '|',
    decreases s.len(),
{
    if s.len() > 0 {
        let front = escaped(s.drop_last());
        let c = s.last();
        let all = escaped(s);
        lemma_escaped(s.drop_last());
        assert(s.drop_last().push(c) =~= s);
        if c == '%' || c == '|' {
            let rest = all.drop_last();
            assert(rest =~= front.push('%'));
            assert(rest.drop_last() =~= front);
            assert(rest.last() == '%');
            assert(reading(rest) == (s.drop_last(), true));
        } else {
            assert(all.drop_last() =~= front);
        }
    } else {
        assert(s =~= Seq::empty());
    }
}

/// Escaping can be undone.
pub proof fn law_unescaped(s: Seq<char>)
    ensures
        unescaped(escaped(s)) == s,
{
    lemma_escaped(s);
}

fn escape(s: &str) -> (out: String)
    ensures
        out@ == escaped(s@),
{
    let cs = text::chars_of(s);
    let mut out = String::new();
    let mut i: usize = 0;
    while i < cs.len()
        invariant
            cs@ == s@,
            i <= cs@.len(),
            out@ == escaped(s@.take(i as int)),
        decreases cs@.len() - i,
    {
        proof {
            assert(s@.take(i + 1).drop_last() =~= s@.take(i as int));
            assert(s@.take(i + 1).last() == cs@[i as int]);
        }
        let c = cs[i];
        let ghost before = out@;
        if c == '%' {
            out.push('%');
            out.push('%');
        } else if c == '|' {
            out.push('%');
            out.push('p');
        } else {
            out.push(c);
        }
        proof {
            assert(out@ =~= before + mark(c));
        }
        i += 1;
    }
    proof {
        assert(s@.take(i as int) =~= s@);
    }
    out
}

fn unescape(s: &str) -> (out: String)
    ensures
        out@ == unescaped(s@),
{
    let cs = text::chars_of(s);
    let mut out = String::new();
    let mut waits = false;
    let mut i: usize = 0;
    while i < cs.len()
        invariant
            cs@ == s@,
            i <= cs@.len(),
            (out@, waits) == reading(s@.take(i as int)),
        decreases cs@.len() - i,
    {
        proof {
            assert(s@.take(i + 1).drop_last() =~= s@.take(i as int));
            assert(s@.take(i + 1).last() == cs@[i as int]);
        }
        let c = cs[i];
        if waits {
            out.push(
                if c == 'p' {
                    '|'
                } else {
                    c
                },
            );
            waits = false;
        } else if c == '%' {
            waits = true;
        } else {
            out.push(c);
        }
        i += 1;
    }
    proof {
        assert(s@.take(i as int) =~= s@);
    }
    out
}

/// A list as one string.
pub open spec fn pack(v: Seq<Seq<char>>) -> Seq<char> {
    text::join(v.map_values(|s: Seq<char>| escaped(s)).push(Seq::empty()), "|"@)
}

/// The list that a string stands for.
pub open spec fn unpack(s: Seq<char>) -> Seq<Seq<char>> {
    text::split(s, text::Cut::At('|')).drop_last().map_values(|t: Seq<char>| unescaped(t))
}

/// A list as one string.
pub fn pack_texts(v: &[String]) -> (out: String)
    ensures
        out@ == pack(text::texts(v@)),
{
    let ghost want = text::texts(v@).map_values(|s: Seq<char>| escaped(s));
    let mut parts = text::none();
    let mut i: usize = 0;
    while i < v.len()
        invariant
            i <= v@.len(),
            want == text::texts(v@).map_values(|s: Seq<char>| escaped(s)),
            text::texts(parts@) == want.take(i as int),
        decreases v@.len() - i,
    {
        let one = escape(v[i].as_str());
        text::push_text(&mut parts, one.as_str());
        i += 1;
        proof {
            assert(want[i - 1] == escaped(v@[i - 1]@));
            assert(want.take(i as int) =~= want.take(i - 1).push(want[i - 1]));
        }
    }
    proof {
        assert(want.take(i as int) =~= want);
        reveal_strlit("");
        assert(""@ =~= Seq::<char>::empty());
    }
    text::push_text(&mut parts, "");
    text::join_texts(parts.as_slice(), "|")
}

/// The list that a string stands for. What follows the last bar is left out.
pub fn unpack_text(s: &str) -> (out: Vec<String>)
    ensures
        text::texts(out@) == unpack(s@),
{
    let parts = text::split_text(s, text::Cut::At('|'));
    let ghost want = unpack(s@);
    let mut out = text::none();
    let mut i: usize = 0;
    while i < parts.len() - 1
        invariant
            i <= parts@.len() - 1,
            want == unpack(s@),
            text::texts(parts@) == text::split(s@, text::Cut::At('|')),
            text::texts(out@) == want.take(i as int),
        decreases parts@.len() - i,
    {
        let one = unescape(parts[i].as_str());
        text::push_text(&mut out, one.as_str());
        i += 1;
        proof {
            assert(text::texts(parts@)[i - 1] == parts@[i - 1]@);
            assert(want[i - 1] == unescaped(parts@[i - 1]@));
            assert(want.take(i as int) =~= want.take(i - 1).push(want[i - 1]));
        }
    }
    proof {
        assert(text::texts(parts@).len() == parts@.len());
        assert(want.take(i as int) =~= want);
    }
    out
}

/// A list that was packed is read back as it was, whatever its strings hold.
pub proof fn law_unpack_undoes_pack(v: Seq<Seq<char>>)
    ensures
        unpack(pack(v)) == v,
{
    let inner = v.map_values(|s: Seq<char>| escaped(s));
    let parts = inner.push(Seq::empty());
    reveal_strlit("|");
    assert("|"@ =~= seq!['|']);
    assert forall|i: int, j: int| 0 <= i < parts.len() && 0 <= j < parts[i].len() implies #[trigger] parts[i][j]
        != '|' by {
        lemma_escaped(v[i]);
        assert(parts[i] == escaped(v[i]));
        assert(escaped(v[i])[j] != '|');
    }
    text::law_split_undoes_join(parts, '|');
    assert(parts.drop_last() =~= inner);
    let out = unpack(pack(v));
    assert forall|i: int| 0 <= i < v.len() implies #[trigger] out[i] == v[i] by {
        law_unescaped(v[i]);
        assert(inner[i] == escaped(v[i]));
    }
    assert(out =~= v);
}

/// Other lists are other strings.
pub proof fn law_pack_tells_apart(v: Seq<Seq<char>>, w: Seq<Seq<char>>)
    requires
        pack(v) == pack(w),
    ensures
        v == w,
{
    law_unpack_undoes_pack(v);
    law_unpack_undoes_pack(w);
}

} // verus!
