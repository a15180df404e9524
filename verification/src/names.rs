//! Tables keyed by name, in the order their entries were written.
//!
//! A [`NameMap`] is modelled by the sequence of its entries. A name never occurs
//! twice in it, which is an invariant of the type; [`lookup`] is what the table holds
//! under a name.
use vstd::prelude::*;
use crate::order;
use crate::text;

verus! {

/// A value that can be copied without changing what it means.
pub trait Duplicate: View + Sized {
    /// A copy with the same view.
    fn duplicate(&self) -> (out: Self)
        ensures
            out@ == self@,
    ;
}

/// The first position of `key` in `m`, or the length of `m` where it is absent.
pub open spec fn position<V>(m: Seq<(Seq<char>, V)>, key: Seq<char>) -> int
    decreases m.len(),
{
    if m.len() == 0 {
        0
    } else {
        let p = position(m.drop_last(), key);
        if p < m.len() - 1 || m.last().0 == key {
            p
        } else {
            m.len() as int
        }
    }
}

/// Whether `m` has an entry under `key`.
pub open spec fn holds<V>(m: Seq<(Seq<char>, V)>, key: Seq<char>) -> bool {
    position(m, key) < m.len()
}

/// What `m` holds under `key`.
pub open spec fn lookup<V>(m: Seq<(Seq<char>, V)>, key: Seq<char>) -> Option<V> {
    if holds(m, key) {
        Some(m[position(m, key)].1)
    } else {
        None
    }
}

/// `m` with `value` under `key`: an entry that is there is replaced where it
/// stands, a new one goes to the end.
pub open spec fn put<V>(m: Seq<(Seq<char>, V)>, key: Seq<char>, value: V) -> Seq<
    (Seq<char>, V),
> {
    if holds(m, key) {
        m.update(position(m, key), (key, value))
    } else {
        m.push((key, value))
    }
}

/// `m` without any entry under `key`.
pub open spec fn without<V>(m: Seq<(Seq<char>, V)>, key: Seq<char>) -> Seq<(Seq<char>, V)> {
    m.filter(|e: (Seq<char>, V)| e.0 != key)
}

/// `base` with every entry of `over` put into it, in order.
pub open spec fn merged<V>(base: Seq<(Seq<char>, V)>, over: Seq<(Seq<char>, V)>) -> Seq<
    (Seq<char>, V),
>
    decreases over.len(),
{
    if over.len() == 0 {
        base
    } else {
        put(merged(base, over.drop_last()), over.last().0, over.last().1)
    }
}

/// The names of the entries, in order.
pub open spec fn keys<V>(m: Seq<(Seq<char>, V)>) -> Seq<Seq<char>> {
    m.map_values(|e: (Seq<char>, V)| e.0)
}

/// Whether no name occurs twice.
pub open spec fn distinct<V>(m: Seq<(Seq<char>, V)>) -> bool {
    forall|i: int, j: int| 0 <= i < j < m.len() ==> #[trigger] m[i].0 != #[trigger] m[j].0
}

/// The entries of `m` whose flag is set.
pub open spec fn picked<V>(m: Seq<V>, keep: Seq<bool>) -> Seq<V>
    decreases m.len(),
{
    if m.len() == 0 {
        m
    } else {
        let front = picked(m.drop_last(), keep.drop_last());
        if keep.last() {
            front.push(m.last())
        } else {
            front
        }
    }
}

/// [`position`] is the first index at which the name stands.
pub proof fn lemma_position<V>(m: Seq<(Seq<char>, V)>, key: Seq<char>)
    ensures
        0 <= position(m, key) <= m.len(),
        holds(m, key) ==> m[position(m, key)].0 == key,
        forall|i: int| 0 <= i < position(m, key) ==> (#[trigger] m[i]).0 != key,
    decreases m.len(),
{
    if m.len() > 0 {
        let front = m.drop_last();
        lemma_position(front, key);
        let p = position(front, key);
        assert(p < front.len() ==> m[p] == front[p]);
        assert forall|i: int| 0 <= i < position(m, key) implies (#[trigger] m[i]).0 != key by {
            if i < front.len() {
                assert(m[i] == front[i]);
            }
        }
    }
}

/// An index before which the name does not stand, and at which it does, is its
/// position.
pub proof fn lemma_position_is<V>(m: Seq<(Seq<char>, V)>, key: Seq<char>, i: int)
    requires
        0 <= i <= m.len(),
        i < m.len() ==> m[i].0 == key,
        forall|j: int| 0 <= j < i ==> (#[trigger] m[j]).0 != key,
    ensures
        position(m, key) == i,
{
    lemma_position(m, key);
    let p = position(m, key);
    if p < i {
        assert(m[p].0 != key);
    }
    if i < p {
        assert(m[i].0 != key);
    }
}

/// A name is in a table exactly when it is one of its keys.
pub proof fn lemma_holds<V>(m: Seq<(Seq<char>, V)>, key: Seq<char>)
    ensures
        holds(m, key) <==> keys(m).contains(key),
{
    lemma_position(m, key);
    if holds(m, key) {
        assert(keys(m)[position(m, key)] == key);
    }
    if keys(m).contains(key) {
        let i = choose|i: int| 0 <= i < keys(m).len() && keys(m)[i] == key;
        assert(m[i].0 == key);
    }
}

/// What a table holds after a [`put`]: the new value under its name, and what was
/// there before under every other.
pub proof fn law_put<V>(m: Seq<(Seq<char>, V)>, key: Seq<char>, value: V, other: Seq<char>)
    ensures
        lookup(put(m, key, value), key) == Some(value),
        other != key ==> lookup(put(m, key, value), other) == lookup(m, other),
        distinct(m) ==> distinct(put(m, key, value)),
{
    let n = put(m, key, value);
    lemma_position(m, key);
    lemma_position(m, other);
    let p = position(m, key);
    lemma_position_is(n, key, p);
    if other != key {
        let q = position(m, other);
        if q < m.len() {
            lemma_position_is(n, other, q);
        } else {
            lemma_position_is(n, other, n.len() as int);
        }
    }
    if distinct(m) {
        assert forall|i: int, j: int| 0 <= i < j < n.len() implies #[trigger] n[i].0
            != #[trigger] n[j].0 by {
            if i < m.len() && j < m.len() {
                assert(m[i].0 != m[j].0);
            }
        }
    }
}

/// What a table holds after [`without`]: nothing under the name, and what was
/// there before under every other.
pub proof fn law_without<V>(m: Seq<(Seq<char>, V)>, key: Seq<char>, other: Seq<char>)
    ensures
        !holds(without(m, key), key),
        other != key ==> lookup(without(m, key), other) == lookup(m, other),
        distinct(m) ==> distinct(without(m, key)),
    decreases m.len(),
{
    reveal(Seq::filter);
    let n = without(m, key);
    if m.len() > 0 {
        let front = m.drop_last();
        law_without(front, key, other);
        law_without(front, key, m.last().0);
        let rest = without(front, key);
        lemma_position(m, other);
        lemma_position(front, other);
        lemma_position(rest, other);
        lemma_position(rest, key);
        if m.last().0 == key {
            assert(n == rest);
        } else {
            assert(n == rest.push(m.last()));
            assert(n.drop_last() =~= rest);
            if distinct(m) {
                assert(distinct(front)) by {
                    assert forall|i: int, j: int| 0 <= i < j < front.len() implies #[trigger]
                        front[i].0 != #[trigger] front[j].0 by {
                        assert(m[i].0 != m[j].0);
                    }
                }
                lemma_position(front, m.last().0);
                assert(!holds(front, m.last().0)) by {
                    let q = position(front, m.last().0);
                    if q < front.len() {
                        assert(m[q].0 != m[m.len() - 1].0);
                    }
                }
                lemma_position(rest, m.last().0);
                assert(distinct(n)) by {
                    assert forall|i: int, j: int| 0 <= i < j < n.len() implies #[trigger] n[i].0
                        != #[trigger] n[j].0 by {
                        if j == rest.len() {
                            assert(rest[i].0 != m.last().0);
                        } else {
                            assert(rest[i].0 != rest[j].0);
                        }
                    }
                }
            }
        }
        if m.last().0 == key && distinct(m) {
            assert forall|i: int, j: int| 0 <= i < j < front.len() implies #[trigger] front[i].0
                != #[trigger] front[j].0 by {
                assert(m[i].0 != m[j].0);
            }
        }
    }
}

/// What a table holds after a merge: the entries of `over` win, and every other
/// name keeps what it had.
pub proof fn law_merged<V>(base: Seq<(Seq<char>, V)>, over: Seq<(Seq<char>, V)>, key: Seq<char>)
    requires
        distinct(over),
    ensures
        lookup(merged(base, over), key) == (if holds(over, key) {
            lookup(over, key)
        } else {
            lookup(base, key)
        }),
        distinct(base) ==> distinct(merged(base, over)),
    decreases over.len(),
{
    lemma_position(over, key);
    if over.len() > 0 {
        let front = over.drop_last();
        assert(distinct(front)) by {
            assert forall|i: int, j: int| 0 <= i < j < front.len() implies #[trigger] front[i].0
                != #[trigger] front[j].0 by {
                assert(over[i].0 != over[j].0);
            }
        }
        law_merged(base, front, key);
        law_put(merged(base, front), over.last().0, over.last().1, key);
        lemma_position(front, key);
        let p = position(front, key);
        if p < front.len() {
            assert(over[p].0 != over[over.len() - 1].0);
        }
    }
}

/// Picking the entries that pass a test is filtering by it.
pub proof fn lemma_picked_is_filter<V>(m: Seq<V>, keep: Seq<bool>, test: spec_fn(V) -> bool)
    requires
        keep.len() == m.len(),
        forall|i: int| 0 <= i < m.len() ==> #[trigger] keep[i] == test(m[i]),
    ensures
        picked(m, keep) == m.filter(test),
    decreases m.len(),
{
    reveal(Seq::filter);
    if m.len() > 0 {
        assert(keep.last() == test(m.last()));
        lemma_picked_is_filter(m.drop_last(), keep.drop_last(), test);
    }
}

/// Whether a test may have answered `yes` for a name.
pub open spec fn answered<F: Fn(&str) -> bool>(f: F, name: Seq<char>, yes: bool) -> bool {
    exists|s: &str| s@ == name && #[trigger] call_ensures(f, (s,), yes)
}

/// Whether a test may have answered so for every entry.
pub open spec fn answered_all<V, F: Fn(&str) -> bool>(
    f: F,
    m: Seq<(Seq<char>, V)>,
    keep: Seq<bool>,
) -> bool {
    keep.len() == m.len() && forall|i: int|
        0 <= i < keep.len() ==> answered(f, m[i].0, #[trigger] keep[i])
}

/// Keeping the entries that a test accepts, where the test is a function of the
/// name, is filtering by that function.
pub proof fn law_retain<V, F: Fn(&str) -> bool>(
    f: F,
    m: Seq<(Seq<char>, V)>,
    keep: Seq<bool>,
    test: spec_fn(Seq<char>) -> bool,
)
    requires
        answered_all(f, m, keep),
        forall|s: &str, yes: bool| #[trigger] call_ensures(f, (s,), yes) ==> yes == test(s@),
    ensures
        picked(m, keep) == m.filter(|e: (Seq<char>, V)| test(e.0)),
{
    let wanted = |e: (Seq<char>, V)| test(e.0);
    assert forall|i: int| 0 <= i < m.len() implies #[trigger] keep[i] == wanted(m[i]) by {
        assert(answered(f, m[i].0, keep[i]));
        let s = choose|s: &str| s@ == m[i].0 && #[trigger] call_ensures(f, (s,), keep[i]);
        assert(keep[i] == test(s@));
    }
    lemma_picked_is_filter(m, keep, wanted);
}

/// The entries that pass a test are as distinct as all of them.
pub proof fn law_picked<V>(m: Seq<(Seq<char>, V)>, keep: Seq<bool>)
    requires
        keep.len() == m.len(),
        distinct(m),
    ensures
        distinct(picked(m, keep)),
        forall|i: int|
            0 <= i < picked(m, keep).len() ==> m.contains(#[trigger] picked(m, keep)[i]),
    decreases m.len(),
{
    if m.len() > 0 {
        let front = m.drop_last();
        let inner = picked(front, keep.drop_last());
        let all = picked(m, keep);
        assert forall|i: int, j: int| 0 <= i < j < front.len() implies #[trigger] front[i].0
            != #[trigger] front[j].0 by {
            assert(m[i].0 != m[j].0);
        }
        law_picked(front, keep.drop_last());
        assert forall|i: int| 0 <= i < all.len() implies m.contains(#[trigger] all[i]) by {
            if i < inner.len() {
                assert(front.contains(inner[i]));
                let k = choose|k: int| 0 <= k < front.len() && front[k] == inner[i];
                assert(m[k] == all[i]);
            } else {
                assert(m[m.len() - 1] == all[i]);
            }
        }
        assert forall|i: int, j: int| 0 <= i < j < all.len() implies #[trigger] all[i].0
            != #[trigger] all[j].0 by {
            if j < inner.len() {
                assert(inner[i].0 != inner[j].0);
            } else {
                assert(front.contains(inner[i]));
                let k = choose|k: int| 0 <= k < front.len() && front[k] == inner[i];
                assert(m[k].0 != m[m.len() - 1].0);
            }
        }
    }
}

/// A table of values by name.
#[derive(Debug)]
pub struct NameMap<T> {
    entries: Vec<(String, T)>,
}

impl<T> NameMap<T> {
    /// No name occurs twice.
    #[verifier::type_invariant]
    spec fn each_name_once(self) -> bool {
        names_differ(self.entries@)
    }
}

/// Whether no two entries have the same name.
spec fn names_differ<T>(v: Seq<(String, T)>) -> bool {
    forall|i: int, j: int| 0 <= i < j < v.len() ==> (#[trigger] v[i]).0@ != (#[trigger] v[j]).0@
}

/// The model of some entries.
spec fn entries_view<T: View>(v: Seq<(String, T)>) -> Seq<(Seq<char>, T::V)> {
    v.map_values(|e: (String, T)| (e.0@, e.1@))
}

proof fn lemma_names_differ<T: View>(v: Seq<(String, T)>)
    ensures
        names_differ(v) <==> distinct(entries_view(v)),
{
    let m = entries_view(v);
    if names_differ(v) {
        assert forall|i: int, j: int| 0 <= i < j < m.len() implies #[trigger] m[i].0
            != #[trigger] m[j].0 by {
            assert(v[i].0@ != v[j].0@);
        }
    }
    if distinct(m) {
        assert forall|i: int, j: int| 0 <= i < j < v.len() implies (#[trigger] v[i]).0@ != (
        #[trigger] v[j]).0@ by {
            assert(m[i].0 != m[j].0);
        }
    }
}

impl<T: View> View for NameMap<T> {
    type V = Seq<(Seq<char>, T::V)>;

    closed spec fn view(&self) -> Seq<(Seq<char>, T::V)> {
        entries_view(self.entries@)
    }
}

fn drop_name<T: View>(entries: &mut Vec<(String, T)>, key: &str)
    ensures
        entries_view(final(entries)@) == without(entries_view(old(entries)@), key@),
{
    let ghost before = entries_view(entries@);
    let mut i: usize = 0;
    let ghost mut gone: int = 0;
    proof {
        assert(before.take(0) =~= Seq::empty());
        assert(entries_view(entries@) =~= without(before.take(0), key@) + before.skip(0)) by {
            reveal(Seq::filter);
        }
    }
    while i < entries.len()
        invariant
            0 <= gone,
            before.len() == gone + entries@.len(),
            i <= entries@.len(),
            entries_view(entries@) == without(before.take(i + gone), key@) + before.skip(i + gone),
            without(before.take(i + gone), key@).len() == i,
        decreases entries@.len() - i,
    {
        let ghost at = i + gone;
        let ghost now = entries_view(entries@);
        proof {
            reveal(Seq::filter);
            assert(before.take(at + 1).drop_last() =~= before.take(at));
            assert(now[i as int] == before[at]);
        }
        if text::same(entries[i].0.as_str(), key) {
            entries.remove(i);
            proof {
                gone = gone + 1;
                assert(entries_view(entries@) =~= now.remove(i as int));
                assert(entries_view(entries@) =~= without(before.take(at + 1), key@) + before.skip(
                    at + 1,
                ));
            }
        } else {
            i += 1;
            proof {
                assert(entries_view(entries@) =~= without(before.take(at + 1), key@) + before.skip(
                    at + 1,
                ));
            }
        }
    }
    proof {
        assert(before.take(i + gone) =~= before);
        assert(entries_view(entries@) =~= without(before, key@));
    }
}

fn keep_names<T: View, F: Fn(&str) -> bool>(entries: &mut Vec<(String, T)>, f: F)
    requires
        forall|s: &str| #[trigger] call_requires(f, (s,)),
    ensures
        exists|keep: Seq<bool>| #[trigger]
            picked(entries_view(old(entries)@), keep) == entries_view(final(entries)@)
                && answered_all(f, entries_view(old(entries)@), keep),
{
    let ghost before = entries_view(entries@);
    let ghost mut keep: Seq<bool> = Seq::empty();
    let ghost mut gone: int = 0;
    let mut i: usize = 0;
    proof {
        assert(before.take(0) =~= Seq::empty());
        assert(entries_view(entries@) =~= picked(before.take(0), keep) + before.skip(0));
    }
    while i < entries.len()
        invariant
            forall|s: &str| #[trigger] call_requires(f, (s,)),
            0 <= gone,
            before.len() == gone + entries@.len(),
            i <= entries@.len(),
            keep.len() == i + gone,
            entries_view(entries@) == picked(before.take(i + gone), keep) + before.skip(i + gone),
            picked(before.take(i + gone), keep).len() == i,
            answered_all(f, before.take(i + gone), keep),
        decreases entries@.len() - i,
    {
        let ghost at = i + gone;
        let ghost now = entries_view(entries@);
        let yes = f(entries[i].0.as_str());
        proof {
            let kept = keep.push(yes);
            assert(before.take(at + 1).drop_last() =~= before.take(at));
            assert(kept.drop_last() =~= keep);
            assert(now[i as int] == before[at]);
            assert(answered(f, before[at].0, yes));
            assert forall|k: int| 0 <= k < kept.len() implies answered(
                f,
                before.take(at + 1)[k].0,
                #[trigger] kept[k],
            ) by {
                if k < at {
                    assert(answered(f, before.take(at)[k].0, keep[k]));
                }
            }
            keep = kept;
        }
        if yes {
            i += 1;
            proof {
                assert(entries_view(entries@) =~= picked(before.take(at + 1), keep) + before.skip(
                    at + 1,
                ));
            }
        } else {
            entries.remove(i);
            proof {
                gone = gone + 1;
                assert(entries_view(entries@) =~= now.remove(i as int));
                assert(entries_view(entries@) =~= picked(before.take(at + 1), keep) + before.skip(
                    at + 1,
                ));
            }
        }
    }
    proof {
        assert(before.take(i + gone) =~= before);
        assert(entries_view(entries@) =~= picked(before, keep));
    }
}

impl<T: View> NameMap<T> {
    /// An empty table.
    pub fn new() -> (out: Self)
        ensures
            out@ == Seq::<(Seq<char>, T::V)>::empty(),
    {
        let out = NameMap { entries: Vec::new() };
        proof {
            assert(out@ =~= Seq::<(Seq<char>, T::V)>::empty());
        }
        out
    }

    /// How many entries there are. Each has a name of its own.
    pub fn len(&self) -> (n: usize)
        ensures
            n == self@.len(),
            distinct(self@),
    {
        proof {
            use_type_invariant(self);
            lemma_names_differ(self.entries@);
        }
        self.entries.len()
    }

    /// Whether there is no entry.
    pub fn is_empty(&self) -> (res: bool)
        ensures
            res == (self@.len() == 0),
    {
        self.entries.len() == 0
    }

    /// The name of the entry at `i`.
    pub fn name_at(&self, i: usize) -> (name: &str)
        requires
            i < self@.len(),
        ensures
            name@ == self@[i as int].0,
    {
        self.entries[i].0.as_str()
    }

    /// The value of the entry at `i`.
    pub fn value_at(&self, i: usize) -> (value: &T)
        requires
            i < self@.len(),
        ensures
            value@ == self@[i as int].1,
    {
        &self.entries[i].1
    }

    /// Where `key` stands, or the number of entries where it is absent.
    pub fn position_of(&self, key: &str) -> (i: usize)
        ensures
            i == position(self@, key@),
            i <= self@.len(),
    {
        let mut i: usize = 0;
        while i < self.entries.len()
            invariant
                i <= self.entries@.len(),
                forall|j: int| 0 <= j < i ==> (#[trigger] self@[j]).0 != key@,
            decreases self.entries@.len() - i,
        {
            if text::same(self.entries[i].0.as_str(), key) {
                proof {
                    lemma_position_is(self@, key@, i as int);
                }
                return i;
            }
            i += 1;
        }
        proof {
            lemma_position_is(self@, key@, i as int);
        }
        i
    }

    /// What the table holds under `key`.
    pub fn get(&self, key: &str) -> (value: Option<&T>)
        ensures
            match value {
                Some(v) => lookup(self@, key@) == Some(v@),
                None => lookup(self@, key@) == None::<T::V>,
            },
    {
        let i: usize = self.position_of(key);
        if i < self.entries.len() {
            Some(&self.entries[i].1)
        } else {
            None
        }
    }

    /// Whether there is an entry under `key`.
    pub fn contains_key(&self, key: &str) -> (res: bool)
        ensures
            res == holds(self@, key@),
    {
        self.position_of(key) < self.entries.len()
    }

    /// Put `value` under `key`, in place of what was there.
    pub fn insert(&mut self, key: String, value: T)
        ensures
            final(self)@ == put(old(self)@, key@, value@),
            distinct(final(self)@),
    {
        let i: usize = self.position_of(key.as_str());
        let ghost before = self@;
        let ghost k = key@;
        let ghost v = value@;
        proof {
            use_type_invariant(&*self);
            lemma_names_differ(self.entries@);
            law_put(before, k, v, k);
        }
        let mut entries: Vec<(String, T)> = Vec::new();
        std::mem::swap(&mut entries, &mut self.entries);
        if i < entries.len() {
            entries.set(i, (key, value));
            proof {
                assert(entries_view(entries@) =~= before.update(i as int, (k, v)));
            }
        } else {
            entries.push((key, value));
            proof {
                assert(entries_view(entries@) =~= before.push((k, v)));
            }
        }
        proof {
            lemma_names_differ(entries@);
        }
        self.entries = entries;
    }

    /// Drop what is under `key`.
    pub fn remove(&mut self, key: &str)
        ensures
            final(self)@ == without(old(self)@, key@),
            distinct(final(self)@),
    {
        proof {
            use_type_invariant(&*self);
            lemma_names_differ(self.entries@);
            law_without(self@, key@, key@);
        }
        let mut entries: Vec<(String, T)> = Vec::new();
        std::mem::swap(&mut entries, &mut self.entries);
        drop_name(&mut entries, key);
        proof {
            lemma_names_differ(entries@);
        }
        self.entries = entries;
    }

    /// Keep only the entries whose name satisfies `f`.
    pub fn retain<F: Fn(&str) -> bool>(&mut self, f: F)
        requires
            forall|s: &str| #[trigger] call_requires(f, (s,)),
        ensures
            exists|keep: Seq<bool>| #[trigger]
                picked(old(self)@, keep) == final(self)@ && answered_all(f, old(self)@, keep),
            distinct(final(self)@),
    {
        let ghost before = self@;
        proof {
            use_type_invariant(&*self);
            lemma_names_differ(self.entries@);
        }
        let mut entries: Vec<(String, T)> = Vec::new();
        std::mem::swap(&mut entries, &mut self.entries);
        keep_names(&mut entries, f);
        proof {
            let after = entries_view(entries@);
            let keep = choose|keep: Seq<bool>| #[trigger]
                picked(before, keep) == after && answered_all(f, before, keep);
            law_picked(before, keep);
            lemma_names_differ(entries@);
        }
        self.entries = entries;
    }

    /// The names, in the order of texts.
    pub fn sorted_keys(&self) -> (out: Vec<String>)
        ensures
            text::texts(out@) == order::sorted(keys(self@)),
    {
        let mut names: Vec<String> = Vec::new();
        let mut i: usize = 0;
        while i < self.entries.len()
            invariant
                i <= self@.len(),
                self@.len() == self.entries@.len(),
                text::texts(names@) == keys(self@).take(i as int),
            decreases self@.len() - i,
        {
            text::push_text(&mut names, self.entries[i].0.as_str());
            i += 1;
            proof {
                assert(keys(self@).take(i as int) =~= keys(self@).take(i - 1).push(
                    keys(self@)[i - 1],
                ));
            }
        }
        proof {
            assert(keys(self@).take(i as int) =~= keys(self@));
        }
        order::sort_texts(names.as_slice())
    }
}

impl<T: Duplicate> NameMap<T> {
    /// Put a copy of every entry of `over` into this table, in order.
    pub fn merge(&mut self, over: &NameMap<T>)
        ensures
            final(self)@ == merged(old(self)@, over@),
    {
        let ghost before = self@;
        let mut i: usize = 0;
        proof {
            assert(over@.take(0) =~= Seq::empty());
        }
        while i < over.entries.len()
            invariant
                i <= over@.len(),
                over@.len() == over.entries@.len(),
                self@ == merged(before, over@.take(i as int)),
            decreases over@.len() - i,
        {
            let key = over.entries[i].0.clone();
            let value = over.entries[i].1.duplicate();
            proof {
                assert(over@.take(i + 1).drop_last() =~= over@.take(i as int));
                assert(over@.take(i + 1).last() == over@[i as int]);
            }
            self.insert(key, value);
            i += 1;
        }
        proof {
            assert(over@.take(i as int) =~= over@);
        }
    }
}

impl<T: Duplicate> Clone for NameMap<T> {
    fn clone(&self) -> (out: Self)
        ensures
            out@ == self@,
    {
        let mut entries: Vec<(String, T)> = Vec::new();
        let mut i: usize = 0;
        while i < self.entries.len()
            invariant
                i <= self.entries@.len(),
                entries@.len() == i,
                forall|j: int|
                    0 <= j < i ==> (#[trigger] entries@[j]).0@ == self.entries@[j].0@
                        && entries@[j].1@ == self.entries@[j].1@,
            decreases self.entries@.len() - i,
        {
            let key = self.entries[i].0.clone();
            let value = self.entries[i].1.duplicate();
            entries.push((key, value));
            i += 1;
        }
        proof {
            use_type_invariant(self);
            assert forall|i: int, j: int| 0 <= i < j < entries@.len() implies (
            #[trigger] entries@[i]).0@ != (#[trigger] entries@[j]).0@ by {
                assert(self.entries@[i].0@ != self.entries@[j].0@);
            }
        }
        let out = NameMap { entries };
        proof {
            assert(out@ =~= self@);
        }
        out
    }
}

impl<T: Duplicate> Duplicate for NameMap<T> {
    fn duplicate(&self) -> (out: Self) {
        self.clone()
    }
}

impl<T: View> Default for NameMap<T> {
    fn default() -> (out: Self)
        ensures
            out@ == Seq::<(Seq<char>, T::V)>::empty(),
    {
        NameMap::new()
    }
}

/// A copy of an optional table.
pub fn copy_table<T: Duplicate>(m: &Option<NameMap<T>>) -> (out: Option<NameMap<T>>)
    ensures
        text::opt(out) == text::opt(*m),
{
    match m {
        Some(t) => Some(t.clone()),
        None => None,
    }
}

/// `base` with the entries of `over` merged into it, where there are any.
pub open spec fn merged_opt<V>(
    base: Option<Seq<(Seq<char>, V)>>,
    over: Option<Seq<(Seq<char>, V)>>,
) -> Option<Seq<(Seq<char>, V)>> {
    match (base, over) {
        (_, None) => base,
        (None, Some(o)) => Some(merged(Seq::empty(), o)),
        (Some(b), Some(o)) => Some(merged(b, o)),
    }
}

/// `base` with the entries of `over` merged into it, where there are any.
pub fn merge_tables<T: Duplicate>(base: &Option<NameMap<T>>, over: &Option<NameMap<T>>) -> (out:
    Option<NameMap<T>>)
    ensures
        text::opt(out) == merged_opt(text::opt(*base), text::opt(*over)),
{
    match over {
        None => copy_table(base),
        Some(o) => {
            let mut out: NameMap<T> = match base {
                Some(b) => b.clone(),
                None => NameMap::new(),
            };
            out.merge(o);
            Some(out)
        },
    }
}

} // verus!
