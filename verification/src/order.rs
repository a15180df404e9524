//! The order of texts, and sorting by it.
//!
//! Strings compare character by character, by code point, and a proper prefix
//! comes first. Everything that is walked by name is walked in this order, so no
//! result depends on the order in which a manifest lists its entries.
use vstd::prelude::*;
use crate::text;

verus! {

/// Whether `a` comes no later than `b`.
pub open spec fn text_le(a: Seq<char>, b: Seq<char>) -> bool
    decreases a.len(),
{
    if a.len() == 0 {
        true
    } else if b.len() == 0 {
        false
    } else if a[0] == b[0] {
        text_le(a.skip(1), b.skip(1))
    } else {
        a[0] < b[0]
    }
}

/// The order of texts as a relation.
pub open spec fn text_order() -> spec_fn(Seq<char>, Seq<char>) -> bool {
    |a: Seq<char>, b: Seq<char>| text_le(a, b)
}

proof fn lemma_le_reflexive(a: Seq<char>)
    ensures
        text_le(a, a),
    decreases a.len(),
{
    if a.len() > 0 {
        lemma_le_reflexive(a.skip(1));
    }
}

proof fn lemma_le_antisymmetric(a: Seq<char>, b: Seq<char>)
    requires
        text_le(a, b),
        text_le(b, a),
    ensures
        a == b,
    decreases a.len(),
{
    if a.len() > 0 && b.len() > 0 {
        lemma_le_antisymmetric(a.skip(1), b.skip(1));
        assert(a =~= seq![a[0]] + a.skip(1));
        assert(b =~= seq![b[0]] + b.skip(1));
    } else {
        assert(a =~= b);
    }
}

proof fn lemma_le_transitive(a: Seq<char>, b: Seq<char>, c: Seq<char>)
    requires
        text_le(a, b),
        text_le(b, c),
    ensures
        text_le(a, c),
    decreases a.len(),
{
    if a.len() > 0 && b.len() > 0 && c.len() > 0 && a[0] == b[0] && b[0] == c[0] {
        lemma_le_transitive(a.skip(1), b.skip(1), c.skip(1));
    }
}

proof fn lemma_le_total(a: Seq<char>, b: Seq<char>)
    ensures
        text_le(a, b) || text_le(b, a),
    decreases a.len(),
{
    if a.len() > 0 && b.len() > 0 {
        lemma_le_total(a.skip(1), b.skip(1));
    }
}

/// The order of texts is a total order: any two texts compare, and only equal
/// ones compare both ways.
pub proof fn law_text_order_is_total()
    ensures
        vstd::relations::total_ordering(text_order()),
{
    let r = text_order();
    assert forall|a: Seq<char>| #[trigger] r(a, a) by {
        lemma_le_reflexive(a);
    }
    assert forall|a: Seq<char>, b: Seq<char>| #[trigger] r(a, b) && #[trigger] r(b, a) implies a
        == b by {
        lemma_le_antisymmetric(a, b);
    }
    assert forall|a: Seq<char>, b: Seq<char>, c: Seq<char>| #[trigger]
        r(a, b) && #[trigger] r(b, c) implies r(a, c) by {
        lemma_le_transitive(a, b, c);
    }
    assert forall|a: Seq<char>, b: Seq<char>| #[trigger] r(a, b) || #[trigger] r(b, a) by {
        lemma_le_total(a, b);
    }
    assert(vstd::relations::reflexive(r) && vstd::relations::antisymmetric(r) && vstd::relations::transitive(r) && vstd::relations::strongly_connected(r));
}

/// `v` with `t` put behind every text that comes no later.
pub open spec fn insert_text(v: Seq<Seq<char>>, t: Seq<char>) -> Seq<Seq<char>>
    decreases v.len(),
{
    if v.len() == 0 || text_le(v.last(), t) {
        v.push(t)
    } else {
        insert_text(v.drop_last(), t).push(v.last())
    }
}

/// The texts of `v` in order.
pub open spec fn sorted(v: Seq<Seq<char>>) -> Seq<Seq<char>>
    decreases v.len(),
{
    if v.len() == 0 {
        v
    } else {
        insert_text(sorted(v.drop_last()), v.last())
    }
}

proof fn lemma_insert_text(v: Seq<Seq<char>>, t: Seq<char>)
    requires
        vstd::relations::sorted_by(v, text_order()),
    ensures
        vstd::relations::sorted_by(insert_text(v, t), text_order()),
        insert_text(v, t).to_multiset() == v.to_multiset().insert(t),
        forall|x: Seq<char>| insert_text(v, t).contains(x) ==> v.contains(x) || x == t,
    decreases v.len(),
{
    broadcast use vstd::seq_lib::group_to_multiset_ensures;

    law_text_order_is_total();
    let r = text_order();
    if v.len() == 0 || text_le(v.last(), t) {
        let w = v.push(t);
        assert forall|i: int, j: int| 0 <= i < j < w.len() implies #[trigger] r(w[i], w[j]) by {
            if j == v.len() && i < v.len() - 1 {
                assert(r(v[i], v.last()));
                assert(r(v.last(), t));
            }
        }
        assert forall|x: Seq<char>| w.contains(x) implies v.contains(x) || x == t by {
            let i = choose|i: int| 0 <= i < w.len() && w[i] == x;
            if i < v.len() {
                assert(v[i] == x);
            }
        }
    } else {
        let front = v.drop_last();
        let inner = insert_text(front, t);
        lemma_insert_text(front, t);
        let w = inner.push(v.last());
        lemma_le_total(v.last(), t);
        assert forall|i: int, j: int| 0 <= i < j < w.len() implies #[trigger] r(w[i], w[j]) by {
            if j == inner.len() {
                assert(inner.contains(inner[i]));
                if front.contains(inner[i]) {
                    let k = choose|k: int| 0 <= k < front.len() && front[k] == inner[i];
                    assert(r(v[k], v[v.len() - 1]));
                }
            }
        }
        assert(v =~= front.push(v.last()));
        assert(w.to_multiset() =~= v.to_multiset().insert(t));
        assert forall|x: Seq<char>| w.contains(x) implies v.contains(x) || x == t by {
            let i = choose|i: int| 0 <= i < w.len() && w[i] == x;
            if i < inner.len() {
                assert(inner.contains(x));
                if front.contains(x) {
                    let k = choose|k: int| 0 <= k < front.len() && front[k] == x;
                    assert(v[k] == x);
                }
            } else {
                assert(v[v.len() - 1] == x);
            }
        }
    }
}

/// Sorting puts the texts in order and neither adds nor drops one.
pub proof fn law_sorted(v: Seq<Seq<char>>)
    ensures
        vstd::relations::sorted_by(sorted(v), text_order()),
        sorted(v).to_multiset() == v.to_multiset(),
        sorted(v).len() == v.len(),
        forall|x: Seq<char>| sorted(v).contains(x) <==> v.contains(x),
    decreases v.len(),
{
    broadcast use vstd::seq_lib::group_to_multiset_ensures;

    if v.len() > 0 {
        law_sorted(v.drop_last());
        lemma_insert_text(sorted(v.drop_last()), v.last());
        assert(v =~= v.drop_last().push(v.last()));
    }
    assert(sorted(v).to_multiset().len() == v.to_multiset().len());
    assert forall|x: Seq<char>| sorted(v).contains(x) <==> v.contains(x) by {
        assert(sorted(v).to_multiset().count(x) == v.to_multiset().count(x));
    }
}

/// Two lists with the same texts, each as often, sort to the same list.
pub proof fn law_sorted_ignores_order(a: Seq<Seq<char>>, b: Seq<Seq<char>>)
    requires
        a.to_multiset() == b.to_multiset(),
    ensures
        sorted(a) == sorted(b),
{
    law_text_order_is_total();
    law_sorted(a);
    law_sorted(b);
    vstd::seq_lib::lemma_sorted_unique(sorted(a), sorted(b), text_order());
}

/// Whether `a` comes no later than `b`.
pub fn no_later(a: &str, b: &str) -> (res: bool)
    ensures
        res == text_le(a@, b@),
{
    let x = text::chars_of(a);
    let y = text::chars_of(b);
    let mut i: usize = 0;
    proof {
        assert(a@.skip(0) =~= a@);
        assert(b@.skip(0) =~= b@);
    }
    while i < x.len() && i < y.len()
        invariant
            x@ == a@,
            y@ == b@,
            i <= x@.len(),
            i <= y@.len(),
            text_le(a@, b@) == text_le(a@.skip(i as int), b@.skip(i as int)),
        decreases x@.len() - i,
    {
        proof {
            assert(a@.skip(i as int).skip(1) =~= a@.skip(i + 1));
            assert(b@.skip(i as int).skip(1) =~= b@.skip(i + 1));
        }
        if x[i] != y[i] {
            return x[i] < y[i];
        }
        i += 1;
    }
    i == x.len()
}

/// Put `t` into `v` behind every string that comes no later.
pub fn insert_into(v: &mut Vec<String>, t: String)
    ensures
        text::texts(final(v)@) == insert_text(text::texts(old(v)@), t@),
{
    let ghost before = text::texts(v@);
    let ghost orig = v@;
    let mut i: usize = v.len();
    proof {
        assert(before.take(i as int) =~= before);
        assert(insert_text(before.take(i as int), t@) + before.skip(i as int) =~= insert_text(
            before,
            t@,
        ));
    }
    while i > 0 && !no_later(v[i - 1].as_str(), t.as_str())
        invariant
            v@ == orig,
            before == text::texts(orig),
            i <= v@.len(),
            insert_text(before, t@) == insert_text(before.take(i as int), t@) + before.skip(
                i as int,
            ),
        decreases i,
    {
        proof {
            let head = before.take(i as int);
            assert(head.drop_last() =~= before.take(i - 1));
            assert(head.last() == orig[i - 1]@);
            assert(insert_text(before.take(i - 1), t@).push(head.last()) + before.skip(i as int)
                =~= insert_text(before.take(i - 1), t@) + before.skip(i - 1));
        }
        i -= 1;
    }
    proof {
        assert(i > 0 ==> before.take(i as int).last() == orig[i - 1]@);
        assert(text::texts(orig.insert(i as int, t)) =~= before.take(i as int).push(t@) + before.skip(
            i as int,
        ));
    }
    v.insert(i, t);
}

/// The strings of `v` in order.
pub fn sort_texts(v: &[String]) -> (out: Vec<String>)
    ensures
        text::texts(out@) == sorted(text::texts(v@)),
{
    let mut out: Vec<String> = Vec::new();
    let mut i: usize = 0;
    proof {
        assert(text::texts(v@).take(0) =~= Seq::empty());
        assert(text::texts(out@) =~= Seq::empty());
    }
    while i < v.len()
        invariant
            i <= v@.len(),
            text::texts(out@) == sorted(text::texts(v@).take(i as int)),
        decreases v@.len() - i,
    {
        proof {
            assert(text::texts(v@).take(i + 1).drop_last() =~= text::texts(v@).take(i as int));
        }
        insert_into(&mut out, v[i].clone());
        i += 1;
    }
    proof {
        assert(text::texts(v@).take(i as int) =~= text::texts(v@));
    }
    out
}

/// The least of some texts.
pub open spec fn least(v: Seq<Seq<char>>) -> Option<Seq<char>>
    decreases v.len(),
{
    if v.len() == 0 {
        None
    } else {
        match least(v.drop_last()) {
            Some(t) => if text_le(t, v.last()) {
                Some(t)
            } else {
                Some(v.last())
            },
            None => Some(v.last()),
        }
    }
}

/// The least text is one of them, and none of them comes before it; where there
/// are texts, one is the least.
pub proof fn law_least(v: Seq<Seq<char>>)
    ensures
        least(v) is None <==> v.len() == 0,
        least(v) matches Some(t) ==> v.contains(t) && forall|x: Seq<char>| #[trigger]
            v.contains(x) ==> text_le(t, x),
    decreases v.len(),
{
    if v.len() > 0 {
        let front = v.drop_last();
        law_least(front);
        let t = least(v)->0;
        lemma_le_reflexive(v.last());
        assert(v[v.len() - 1] == v.last());
        if let Some(u) = least(front) {
            let k = choose|k: int| 0 <= k < front.len() && front[k] == u;
            assert(v[k] == u);
            lemma_le_total(u, v.last());
        }
        assert forall|x: Seq<char>| #[trigger] v.contains(x) implies text_le(t, x) by {
            let i = choose|i: int| 0 <= i < v.len() && v[i] == x;
            if i < front.len() {
                assert(front[i] == x);
                assert(front.contains(x));
                let u = least(front)->0;
                if t != u {
                    lemma_le_transitive(t, u, x);
                }
            }
        }
    }
}

/// The least text does not depend on the order in which the texts are listed, nor
/// on how often.
pub proof fn law_least_ignores_order(a: Seq<Seq<char>>, b: Seq<Seq<char>>)
    requires
        forall|x: Seq<char>| #[trigger] a.contains(x) <==> b.contains(x),
    ensures
        least(a) == least(b),
{
    law_least(a);
    law_least(b);
    if a.len() > 0 {
        assert(a.contains(a[0]));
    }
    if b.len() > 0 {
        assert(b.contains(b[0]));
        assert(a.contains(b[0]));
    }
    if let Some(t) = least(a) {
        if let Some(u) = least(b) {
            assert(a.contains(u));
            assert(b.contains(t));
            lemma_le_antisymmetric(t, u);
        }
    }
}

/// Texts are compared character by character: a text comes before every longer one
/// that it begins, and otherwise the first character in which two differ decides.
pub proof fn law_text_order_goes_by_characters(
    same: Seq<char>,
    c: char,
    x: Seq<char>,
    d: char,
    y: Seq<char>,
)
    ensures
        text_le(same, same + y),
        y.len() > 0 ==> !text_le(same + y, same),
        c < d ==> text_le(same + seq![c] + x, same + seq![d] + y) && !text_le(
            same + seq![d] + y,
            same + seq![c] + x,
        ),
    decreases same.len(),
{
    let a = same + seq![c] + x;
    let b = same + seq![d] + y;
    if same.len() > 0 {
        let rest = same.skip(1);
        law_text_order_goes_by_characters(rest, c, x, d, y);
        assert((same + y).skip(1) =~= rest + y);
        assert(a.skip(1) =~= rest + seq![c] + x);
        assert(b.skip(1) =~= rest + seq![d] + y);
        assert(a[0] == same[0] && b[0] == same[0] && (same + y)[0] == same[0]);
    } else {
        assert(same + y =~= y);
        assert(a[0] == c && b[0] == d);
    }
}

} // verus!
