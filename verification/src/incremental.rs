//! Per-object header dependencies for incremental rebuilds.
//!
//! Each compile leaves behind which files its object was made from. The record is
//! kept between builds and read on the next one, to decide what a changed header
//! invalidates.
use vstd::prelude::*;
use crate::paths;
use crate::text;

verus! {

/// The files each object was made from, keyed by the object's path.
#[derive(Debug)]
pub struct DepGraph {
    objects: Vec<(String, Vec<String>)>,
}

/// The model of some entries of a record.
spec fn entries_view(v: Seq<(String, Vec<String>)>) -> Seq<(Seq<char>, Seq<Seq<char>>)> {
    v.map_values(|e: (String, Vec<String>)| (e.0@, text::texts(e.1@)))
}

/// Whether no object is on record twice.
pub open spec fn each_once(g: Seq<(Seq<char>, Seq<Seq<char>>)>) -> bool {
    forall|i: int, j: int|
        0 <= i < j < g.len() ==> !paths::same_path((#[trigger] g[i]).0, (#[trigger] g[j]).0)
}

impl DepGraph {
    /// No object is on record twice.
    #[verifier::type_invariant]
    spec fn each_object_once(self) -> bool {
        each_once(entries_view(self.objects@))
    }
}

impl View for DepGraph {
    type V = Seq<(Seq<char>, Seq<Seq<char>>)>;

    closed spec fn view(&self) -> Seq<(Seq<char>, Seq<Seq<char>>)> {
        entries_view(self.objects@)
    }
}

impl Default for DepGraph {
    /// A record of nothing.
    fn default() -> (out: Self)
        ensures
            out@ == Seq::<(Seq<char>, Seq<Seq<char>>)>::empty(),
    {
        let out = DepGraph { objects: Vec::new() };
        proof {
            assert(out@ =~= Seq::<(Seq<char>, Seq<Seq<char>>)>::empty());
        }
        out
    }
}

/// The first position of an object in a record, or its length where it is absent.
pub open spec fn object_at(g: Seq<(Seq<char>, Seq<Seq<char>>)>, obj: Seq<char>) -> int
    decreases g.len(),
{
    if g.len() == 0 || paths::same_path(g[0].0, obj) {
        0
    } else {
        1 + object_at(g.skip(1), obj)
    }
}

/// The files an object was made from, where that is on record.
pub open spec fn recorded(g: Seq<(Seq<char>, Seq<Seq<char>>)>, obj: Seq<char>) -> Option<
    Seq<Seq<char>>,
> {
    if object_at(g, obj) < g.len() {
        Some(g[object_at(g, obj)].1)
    } else {
        None
    }
}

/// The record with the files of one object, in place of what was there for it.
pub open spec fn with_record(
    g: Seq<(Seq<char>, Seq<Seq<char>>)>,
    obj: Seq<char>,
    files: Seq<Seq<char>>,
) -> Seq<(Seq<char>, Seq<Seq<char>>)> {
    let i = object_at(g, obj);
    if i < g.len() {
        g.update(i, (g[i].0, files))
    } else {
        g.push((obj, files))
    }
}

/// The objects on record.
pub open spec fn objects_of(g: Seq<(Seq<char>, Seq<Seq<char>>)>) -> Seq<Seq<char>> {
    g.map_values(|e: (Seq<char>, Seq<Seq<char>>)| e.0)
}

/// A list of paths, without repeats and in order, with one more path in it.
pub open spec fn insert_path(v: Seq<Seq<char>>, p: Seq<char>) -> Seq<Seq<char>> {
    if paths::has_path(v, p) {
        v
    } else {
        place_path(v, p)
    }
}

/// `v` with `p` behind every path that comes earlier.
pub open spec fn place_path(v: Seq<Seq<char>>, p: Seq<char>) -> Seq<Seq<char>>
    decreases v.len(),
{
    if v.len() == 0 || paths::earlier_path(v.last(), p) {
        v.push(p)
    } else {
        place_path(v.drop_last(), p).push(v.last())
    }
}

/// A list of paths with more paths in it.
pub open spec fn insert_paths(v: Seq<Seq<char>>, more: Seq<Seq<char>>) -> Seq<Seq<char>>
    decreases more.len(),
{
    if more.len() == 0 {
        v
    } else {
        insert_path(insert_paths(v, more.drop_last()), more.last())
    }
}

/// Every file on record, each once, in order.
pub open spec fn files_of(g: Seq<(Seq<char>, Seq<Seq<char>>)>) -> Seq<Seq<char>>
    decreases g.len(),
{
    if g.len() == 0 {
        Seq::empty()
    } else {
        insert_paths(files_of(g.drop_last()), g.last().1)
    }
}

/// The record of the objects that a build still has.
pub open spec fn record_of(
    g: Seq<(Seq<char>, Seq<Seq<char>>)>,
    current: Seq<Seq<char>>,
) -> Seq<(Seq<char>, Seq<Seq<char>>)> {
    g.filter(|e: (Seq<char>, Seq<Seq<char>>)| paths::has_path(current, e.0))
}

/// Where the record of a project's profile is kept.
pub open spec fn record_path(dir: Seq<char>, profile: Seq<char>) -> Seq<char> {
    paths::joined(
        paths::joined(paths::joined(paths::joined(dir, ".conjure"@), "build"@), "objdeps"@),
        profile + ".kdl"@,
    )
}

fn put_in_order(v: &mut Vec<String>, p: &str)
    requires
        paths::in_order(text::texts(old(v)@)),
        !paths::has_path(text::texts(old(v)@), p@),
    ensures
        text::texts(final(v)@) == place_path(text::texts(old(v)@), p@),
        paths::in_order(text::texts(final(v)@)),
{
    let ghost before = text::texts(v@);
    let ghost orig = v@;
    let mut i: usize = v.len();
    let mut found = false;
    proof {
        assert(before.take(i as int) =~= before);
        assert(place_path(before.take(i as int), p@) + before.skip(i as int) =~= place_path(
            before,
            p@,
        ));
    }
    while i > 0 && !found
        invariant
            v@ == orig,
            before == text::texts(orig),
            i <= v@.len(),
            paths::in_order(before),
            !paths::has_path(before, p@),
            place_path(before, p@) == place_path(before.take(i as int), p@) + before.skip(i as int),
            forall|k: int| i <= k < before.len() ==> paths::earlier_path(p@, #[trigger] before[k]),
            found ==> i > 0 && forall|k: int|
                0 <= k < i ==> paths::earlier_path(#[trigger] before[k], p@),
        decreases
                i + (if found {
                    0int
                } else {
                    1int
                }),
    {
        let ghost last = orig[i - 1]@;
        proof {
            assert(before[i - 1] == last);
            assert(!paths::same_path(before[i - 1], p@));
        }
        if paths::is_earlier(v[i - 1].as_str(), p) {
            found = true;
            proof {
                assert forall|k: int| 0 <= k < i implies paths::earlier_path(
                    #[trigger] before[k],
                    p@,
                ) by {
                    if k < i - 1 {
                        assert(paths::earlier_path(before[k], before[i - 1]));
                    }
                }
            }
        } else {
            proof {
                let head = before.take(i as int);
                assert(head.drop_last() =~= before.take(i - 1));
                assert(head.last() == last);
                assert(place_path(before.take(i - 1), p@).push(head.last()) + before.skip(i as int)
                    =~= place_path(before.take(i - 1), p@) + before.skip(i - 1));
            }
            i -= 1;
        }
    }
    let t = p.to_owned();
    let ghost after = before.take(i as int).push(p@) + before.skip(i as int);
    proof {
        assert(i > 0 ==> before.take(i as int).last() == before[i - 1]);
        assert(text::texts(orig.insert(i as int, t)) =~= after);
        assert forall|j: int, k: int| 0 <= j < k < after.len() implies paths::earlier_path(
            #[trigger] after[j],
            #[trigger] after[k],
        ) by {
            if j < i {
                assert(after[j] == before[j]);
            } else if j > i {
                assert(after[j] == before[j - 1]);
            }
            if k < i {
                assert(after[k] == before[k]);
            } else if k > i {
                assert(after[k] == before[k - 1]);
            }
        }
    }
    v.insert(i, t);
}

/// [`object_at`] is the first position at which the object stands.
proof fn lemma_object_at(g: Seq<(Seq<char>, Seq<Seq<char>>)>, obj: Seq<char>)
    ensures
        0 <= object_at(g, obj) <= g.len(),
        object_at(g, obj) < g.len() ==> paths::same_path(g[object_at(g, obj)].0, obj),
        forall|i: int|
            0 <= i < object_at(g, obj) ==> !paths::same_path((#[trigger] g[i]).0, obj),
    decreases g.len(),
{
    if g.len() > 0 && !paths::same_path(g[0].0, obj) {
        let rest = g.skip(1);
        lemma_object_at(rest, obj);
        assert forall|i: int| 0 <= i < object_at(g, obj) implies !paths::same_path(
            (#[trigger] g[i]).0,
            obj,
        ) by {
            if i > 0 {
                assert(rest[i - 1] == g[i]);
            }
        }
    }
}

/// Recording an object keeps every object on record once.
pub proof fn law_with_record(
    g: Seq<(Seq<char>, Seq<Seq<char>>)>,
    obj: Seq<char>,
    files: Seq<Seq<char>>,
)
    requires
        each_once(g),
    ensures
        each_once(with_record(g, obj, files)),
{
    lemma_object_at(g, obj);
    let h = with_record(g, obj, files);
    assert forall|i: int, j: int| 0 <= i < j < h.len() implies !paths::same_path(
        (#[trigger] h[i]).0,
        (#[trigger] h[j]).0,
    ) by {
        assert(h[i].0 == g[i].0);
        if j < g.len() {
            assert(h[j].0 == g[j].0);
            assert(!paths::same_path(g[i].0, g[j].0));
        } else {
            assert(!paths::same_path(g[i].0, obj));
        }
    }
}

proof fn lemma_record_of_some(
    g: Seq<(Seq<char>, Seq<Seq<char>>)>,
    current: Seq<Seq<char>>,
    i: int,
)
    requires
        0 <= i < record_of(g, current).len(),
    ensures
        g.contains(record_of(g, current)[i]),
    decreases g.len(),
{
    reveal(Seq::filter);
    if g.len() > 0 {
        let front = g.drop_last();
        let inner = record_of(front, current);
        if i < inner.len() {
            lemma_record_of_some(front, current, i);
            let k = choose|k: int| 0 <= k < front.len() && front[k] == inner[i];
            assert(g[k] == record_of(g, current)[i]);
        } else {
            assert(g[g.len() - 1] == record_of(g, current)[i]);
        }
    }
}

/// Forgetting objects keeps every object on record once.
pub proof fn law_record_of(g: Seq<(Seq<char>, Seq<Seq<char>>)>, current: Seq<Seq<char>>)
    requires
        each_once(g),
    ensures
        each_once(record_of(g, current)),
    decreases g.len(),
{
    reveal(Seq::filter);
    if g.len() > 0 {
        let front = g.drop_last();
        let inner = record_of(front, current);
        let all = record_of(g, current);
        assert(each_once(front)) by {
            assert forall|i: int, j: int| 0 <= i < j < front.len() implies !paths::same_path(
                (#[trigger] front[i]).0,
                (#[trigger] front[j]).0,
            ) by {
                assert(!paths::same_path(g[i].0, g[j].0));
            }
        }
        law_record_of(front, current);
        assert forall|i: int, j: int| 0 <= i < j < all.len() implies !paths::same_path(
            (#[trigger] all[i]).0,
            (#[trigger] all[j]).0,
        ) by {
            if j < inner.len() {
                assert(!paths::same_path(inner[i].0, inner[j].0));
            } else {
                lemma_record_of_some(front, current, i);
                let k = choose|k: int| 0 <= k < front.len() && front[k] == inner[i];
                assert(!paths::same_path(g[k].0, g[g.len() - 1].0));
            }
        }
    }
}

fn keep_current(objects: &mut Vec<(String, Vec<String>)>, current: &[String])
    ensures
        entries_view(final(objects)@) == record_of(
            entries_view(old(objects)@),
            text::texts(current@),
        ),
{
    let ghost before = entries_view(objects@);
    let ghost now = text::texts(current@);
    let ghost mut gone: int = 0;
    let mut i: usize = 0;
    proof {
        reveal(Seq::filter);
        assert(before.take(0) =~= Seq::empty());
        assert(entries_view(objects@) =~= record_of(before.take(0), now) + before.skip(0));
    }
    while i < objects.len()
        invariant
            now == text::texts(current@),
            0 <= gone,
            before.len() == gone + objects@.len(),
            i <= objects@.len(),
            entries_view(objects@) == record_of(before.take(i + gone), now) + before.skip(i + gone),
            record_of(before.take(i + gone), now).len() == i,
        decreases objects@.len() - i,
    {
        let ghost at = i + gone;
        let ghost was = entries_view(objects@);
        proof {
            reveal(Seq::filter);
            assert(before.take(at + 1).drop_last() =~= before.take(at));
            assert(was[i as int] == before[at]);
        }
        if paths::holds_path(current, objects[i].0.as_str()) {
            i += 1;
            proof {
                assert(entries_view(objects@) =~= record_of(before.take(at + 1), now) + before.skip(
                    at + 1,
                ));
            }
        } else {
            objects.remove(i);
            proof {
                gone = gone + 1;
                assert(entries_view(objects@) =~= was.remove(i as int));
                assert(entries_view(objects@) =~= record_of(before.take(at + 1), now) + before.skip(
                    at + 1,
                ));
            }
        }
    }
    proof {
        assert(before.take(i + gone) =~= before);
        assert(entries_view(objects@) =~= record_of(before, now));
    }
}

impl DepGraph {
    /// Where the record of a project's profile is kept.
    pub fn path(dir: &str, profile: &str) -> (out: String)
        ensures
            out@ == record_path(dir@, profile@),
    {
        let a = paths::join(dir, ".conjure");
        let b = paths::join(a.as_str(), "build");
        let c = paths::join(b.as_str(), "objdeps");
        let file = text::cat(profile, ".kdl");
        paths::join(c.as_str(), file.as_str())
    }

    /// How many objects are on record. None is there twice.
    pub fn len(&self) -> (n: usize)
        ensures
            n == self@.len(),
            each_once(self@),
    {
        proof {
            use_type_invariant(self);
        }
        self.objects.len()
    }

    /// The object at `i`.
    pub fn object(&self, i: usize) -> (out: &str)
        requires
            i < self@.len(),
        ensures
            out@ == self@[i as int].0,
    {
        self.objects[i].0.as_str()
    }

    /// The files of the object at `i`.
    pub fn files_at(&self, i: usize) -> (out: &Vec<String>)
        requires
            i < self@.len(),
        ensures
            text::texts(out@) == self@[i as int].1,
    {
        &self.objects[i].1
    }

    /// Where an object is on record.
    pub fn position_of(&self, obj: &str) -> (i: usize)
        ensures
            i == object_at(self@, obj@),
            i <= self@.len(),
    {
        let ghost g = self@;
        let mut i: usize = 0;
        proof {
            assert(g.skip(0) =~= g);
        }
        while i < self.objects.len()
            invariant
                g == self@,
                i <= g.len(),
                g.len() == self.objects@.len(),
                object_at(g, obj@) == i + object_at(g.skip(i as int), obj@),
            decreases g.len() - i,
        {
            proof {
                assert(g.skip(i as int)[0] == g[i as int]);
                assert(g.skip(i as int).skip(1) =~= g.skip(i + 1));
            }
            if paths::is_same(self.objects[i].0.as_str(), obj) {
                return i;
            }
            i += 1;
        }
        i
    }

    /// Record the files an object was made from.
    pub fn insert(&mut self, obj: &str, files: Vec<String>)
        ensures
            final(self)@ == with_record(old(self)@, obj@, text::texts(files@)),
            each_once(final(self)@),
    {
        let i: usize = self.position_of(obj);
        let ghost before = self@;
        let ghost fs = text::texts(files@);
        proof {
            use_type_invariant(&*self);
            law_with_record(before, obj@, fs);
        }
        let mut objects: Vec<(String, Vec<String>)> = Vec::new();
        std::mem::swap(&mut objects, &mut self.objects);
        if i < objects.len() {
            let name = objects[i].0.clone();
            objects.set(i, (name, files));
            proof {
                assert(entries_view(objects@) =~= before.update(
                    i as int,
                    (before[i as int].0, fs),
                ));
            }
        } else {
            objects.push((obj.to_owned(), files));
            proof {
                assert(entries_view(objects@) =~= before.push((obj@, fs)));
            }
        }
        self.objects = objects;
    }

    /// Forget the objects that a build no longer has.
    pub fn retain(&mut self, current: &[String])
        ensures
            final(self)@ == record_of(old(self)@, text::texts(current@)),
            each_once(final(self)@),
    {
        proof {
            use_type_invariant(&*self);
            law_record_of(self@, text::texts(current@));
        }
        let mut objects: Vec<(String, Vec<String>)> = Vec::new();
        std::mem::swap(&mut objects, &mut self.objects);
        keep_current(&mut objects, current);
        self.objects = objects;
    }

    /// Every file on record, each once, in the order of paths.
    pub fn files(&self) -> (out: Vec<String>)
        ensures
            text::texts(out@) == files_of(self@),
            paths::in_order(text::texts(out@)),
    {
        let ghost g = self@;
        let mut out = text::none();
        let mut i: usize = 0;
        proof {
            assert(g.take(0) =~= Seq::empty());
        }
        while i < self.objects.len()
            invariant
                g == self@,
                i <= g.len(),
                g.len() == self.objects@.len(),
                text::texts(out@) == files_of(g.take(i as int)),
                paths::in_order(text::texts(out@)),
            decreases g.len() - i,
        {
            let deps = &self.objects[i].1;
            let ghost start = text::texts(out@);
            let ghost all = text::texts(deps@);
            let mut j: usize = 0;
            proof {
                assert(all.take(0) =~= Seq::empty());
            }
            while j < deps.len()
                invariant
                    j <= deps@.len(),
                    all == text::texts(deps@),
                    text::texts(out@) == insert_paths(start, all.take(j as int)),
                    paths::in_order(text::texts(out@)),
                decreases deps@.len() - j,
            {
                proof {
                    assert(all.take(j + 1).drop_last() =~= all.take(j as int));
                    assert(all.take(j + 1).last() == deps@[j as int]@);
                }
                if !paths::holds_path(out.as_slice(), deps[j].as_str()) {
                    put_in_order(&mut out, deps[j].as_str());
                }
                j += 1;
            }
            proof {
                assert(all.take(j as int) =~= all);
                assert(g.take(i + 1).drop_last() =~= g.take(i as int));
                assert(g.take(i + 1).last() == g[i as int]);
            }
            i += 1;
        }
        proof {
            assert(g.take(i as int) =~= g);
        }
        out
    }
}

proof fn lemma_place_path(v: Seq<Seq<char>>, p: Seq<char>, x: Seq<char>)
    ensures
        place_path(v, p).contains(p),
        v.contains(x) ==> place_path(v, p).contains(x),
        place_path(v, p).contains(x) ==> v.contains(x) || x == p,
    decreases v.len(),
{
    let w = place_path(v, p);
    if v.len() == 0 || paths::earlier_path(v.last(), p) {
        assert(w[v.len() as int] == p);
        if v.contains(x) {
            let i = choose|i: int| 0 <= i < v.len() && v[i] == x;
            assert(w[i] == x);
        }
        if w.contains(x) {
            let i = choose|i: int| 0 <= i < w.len() && w[i] == x;
            if i < v.len() {
                assert(v[i] == x);
            }
        }
    } else {
        let front = v.drop_last();
        let inner = place_path(front, p);
        lemma_place_path(front, p, x);
        let k = choose|k: int| 0 <= k < inner.len() && inner[k] == p;
        assert(w[k] == p);
        if v.contains(x) {
            let i = choose|i: int| 0 <= i < v.len() && v[i] == x;
            if i < front.len() {
                assert(front[i] == x);
                let m = choose|m: int| 0 <= m < inner.len() && inner[m] == x;
                assert(w[m] == x);
            } else {
                assert(w[inner.len() as int] == x);
            }
        }
        if w.contains(x) {
            let i = choose|i: int| 0 <= i < w.len() && w[i] == x;
            if i < inner.len() {
                assert(inner[i] == x);
                if front.contains(x) {
                    let m = choose|m: int| 0 <= m < front.len() && front[m] == x;
                    assert(v[m] == x);
                }
            } else {
                assert(v[v.len() - 1] == x);
            }
        }
    }
}

proof fn lemma_has_path_grows(v: Seq<Seq<char>>, w: Seq<Seq<char>>, x: Seq<char>)
    requires
        forall|t: Seq<char>| v.contains(t) ==> #[trigger] w.contains(t),
        paths::has_path(v, x),
    ensures
        paths::has_path(w, x),
{
    let i = choose|i: int| 0 <= i < v.len() && #[trigger] paths::same_path(v[i], x);
    assert(v.contains(v[i]));
    assert(w.contains(v[i]));
    let j = choose|j: int| 0 <= j < w.len() && w[j] == v[i];
    assert(paths::same_path(w[j], x));
}

proof fn lemma_insert_paths(v: Seq<Seq<char>>, more: Seq<Seq<char>>)
    ensures
        forall|t: Seq<char>| v.contains(t) ==> #[trigger] insert_paths(v, more).contains(t),
        forall|t: Seq<char>| #[trigger]
            insert_paths(v, more).contains(t) ==> v.contains(t) || more.contains(t),
        forall|t: Seq<char>| #[trigger]
            more.contains(t) ==> insert_paths(v, more).contains(t) || paths::has_path(
                insert_paths(v, more),
                t,
            ),
    decreases more.len(),
{
    if more.len() > 0 {
        let front = more.drop_last();
        let a = insert_paths(v, front);
        let p = more.last();
        let b = insert_path(a, p);
        lemma_insert_paths(v, front);
        assert forall|t: Seq<char>| a.contains(t) implies #[trigger] b.contains(t) by {
            lemma_place_path(a, p, t);
        }
        assert forall|t: Seq<char>| #[trigger] b.contains(t) implies v.contains(t)
            || more.contains(t) by {
            lemma_place_path(a, p, t);
            if a.contains(t) {
                if front.contains(t) {
                    let i = choose|i: int| 0 <= i < front.len() && front[i] == t;
                    assert(more[i] == t);
                }
            } else {
                assert(more[more.len() - 1] == t);
            }
        }
        assert forall|t: Seq<char>| #[trigger] more.contains(t) implies b.contains(t)
            || paths::has_path(b, t) by {
            let i = choose|i: int| 0 <= i < more.len() && more[i] == t;
            if i < front.len() {
                assert(front[i] == t);
                assert(front.contains(t));
                if paths::has_path(a, t) {
                    lemma_has_path_grows(a, b, t);
                }
            } else {
                lemma_place_path(a, p, t);
            }
        }
    }
}

/// Every file that an object was made from is among the files on record, under its
/// own spelling or another spelling of the same path; and every file on record
/// belongs to some object.
pub proof fn law_files_are_the_recorded_ones(g: Seq<(Seq<char>, Seq<Seq<char>>)>)
    ensures
        forall|i: int, t: Seq<char>|
            0 <= i < g.len() && #[trigger] g[i].1.contains(t) ==> files_of(g).contains(t)
                || paths::has_path(files_of(g), t),
        forall|t: Seq<char>| #[trigger]
            files_of(g).contains(t) ==> exists|i: int|
                0 <= i < g.len() && (#[trigger] g[i]).1.contains(t),
    decreases g.len(),
{
    if g.len() > 0 {
        let front = g.drop_last();
        let a = files_of(front);
        let b = files_of(g);
        law_files_are_the_recorded_ones(front);
        lemma_insert_paths(a, g.last().1);
        assert forall|i: int, t: Seq<char>|
            0 <= i < g.len() && #[trigger] g[i].1.contains(t) implies b.contains(t)
            || paths::has_path(b, t) by {
            if i < front.len() {
                assert(front[i].1.contains(t));
                if paths::has_path(a, t) {
                    lemma_has_path_grows(a, b, t);
                }
            }
        }
        assert forall|t: Seq<char>| #[trigger] b.contains(t) implies exists|i: int|
            0 <= i < g.len() && (#[trigger] g[i]).1.contains(t) by {
            if a.contains(t) {
                let i = choose|i: int| 0 <= i < front.len() && (#[trigger] front[i]).1.contains(t);
                assert(g[i].1.contains(t));
            } else {
                assert(g[g.len() - 1].1.contains(t));
            }
        }
    }
}

// ---------------------------------------------------------------------------
// Depfiles
// ---------------------------------------------------------------------------

/// How far a make rule has been cut into words.
pub struct RuleState {
    /// The words that are complete.
    pub done: Seq<Seq<char>>,
    /// The word at hand.
    pub current: Seq<char>,
    /// Whether a backslash came just before.
    pub escaped: bool,
}

/// A rule state whose word at hand is complete.
pub open spec fn word_ended(st: RuleState) -> RuleState {
    RuleState {
        done: if st.current.len() > 0 {
            st.done.push(st.current)
        } else {
            st.done
        },
        current: Seq::empty(),
        escaped: false,
    }
}

/// What one more character does: white space ends a word, as does a backslash at
/// the end of a line; a backslash before a blank or a `#` keeps it in the word, and
/// is itself part of the word anywhere else.
pub open spec fn rule_step(st: RuleState, c: char) -> RuleState {
    if st.escaped {
        if c == '\n' || c == '\r' {
            word_ended(st)
        } else if c == ' ' || c == '#' {
            RuleState { current: st.current.push(c), escaped: false, ..st }
        } else if c == '\\' {
            RuleState { current: st.current.push('\\'), ..st }
        } else {
            RuleState { current: st.current.push('\\').push(c), escaped: false, ..st }
        }
    } else if c == '\\' {
        RuleState { escaped: true, ..st }
    } else if text::is_white(c) {
        word_ended(st)
    } else {
        RuleState { current: st.current.push(c), ..st }
    }
}

/// How far a rule has been cut after all of its characters.
pub open spec fn rule_state(rule: Seq<char>) -> RuleState
    decreases rule.len(),
{
    if rule.len() == 0 {
        RuleState { done: Seq::empty(), current: Seq::empty(), escaped: false }
    } else {
        rule_step(rule_state(rule.drop_last()), rule.last())
    }
}

/// What follows the first word that ends in a colon.
pub open spec fn behind_colon(words: Seq<Seq<char>>) -> Seq<Seq<char>>
    decreases words.len(),
{
    if words.len() == 0 {
        words
    } else if text::ends(words[0], ":"@) {
        words.skip(1)
    } else {
        behind_colon(words.skip(1))
    }
}

/// The files a make rule names behind its target.
pub open spec fn prerequisites(rule: Seq<char>) -> Seq<Seq<char>> {
    behind_colon(word_ended(rule_state(rule)).done)
}

/// The files an object was made from, out of the make rule that a compiler wrote
/// for it.
pub fn parse_depfile(rule: &str) -> (out: Vec<String>)
    ensures
        text::texts(out@) == prerequisites(rule@),
{
    let cs = text::chars_of(rule);
    let mut words = text::none();
    let mut current = String::new();
    let mut escaped = false;
    let mut i: usize = 0;
    proof {
        assert(rule@.take(0) =~= Seq::empty());
    }
    while i < cs.len()
        invariant
            cs@ == rule@,
            i <= cs@.len(),
            rule_state(rule@.take(i as int)) == (RuleState {
                done: text::texts(words@),
                current: current@,
                escaped,
            }),
        decreases cs@.len() - i,
    {
        let c = cs[i];
        proof {
            assert(rule@.take(i + 1).drop_last() =~= rule@.take(i as int));
            assert(rule@.take(i + 1).last() == c);
        }
        let ends = if escaped {
            c == '\n' || c == '\r'
        } else {
            c != '\\' && text::white(c)
        };
        if ends {
            if !current.as_str().is_empty() {
                text::push_text(&mut words, current.as_str());
                current = String::new();
            }
            proof {
                assert(current@ =~= Seq::empty());
            }
            escaped = false;
        } else if escaped {
            if c == ' ' || c == '#' {
                current.push(c);
                escaped = false;
            } else if c == '\\' {
                current.push('\\');
            } else {
                current.push('\\');
                current.push(c);
                escaped = false;
            }
        } else if c == '\\' {
            escaped = true;
        } else {
            current.push(c);
        }
        i += 1;
    }
    proof {
        assert(rule@.take(i as int) =~= rule@);
    }
    if !current.as_str().is_empty() {
        text::push_text(&mut words, current.as_str());
    }
    let ghost all = text::texts(words@);
    let mut at: usize = 0;
    proof {
        assert(all.skip(0) =~= all);
    }
    while at < words.len()
        invariant
            at <= words@.len(),
            all == text::texts(words@),
            prerequisites(rule@) == behind_colon(all.skip(at as int)),
        decreases words@.len() - at,
    {
        proof {
            assert(all.skip(at as int)[0] == words@[at as int]@);
            assert(all.skip(at as int).skip(1) =~= all.skip(at + 1));
        }
        if text::ends_with(words[at].as_str(), ":") {
            let rest = vstd::slice::slice_subrange(words.as_slice(), at + 1, words.len());
            proof {
                assert(text::texts(rest@) =~= all.skip(at + 1));
            }
            return text::copy_texts(rest);
        }
        at += 1;
    }
    proof {
        assert(all.skip(at as int) =~= Seq::empty());
    }
    text::none()
}

/// Whether `s` is how a make rule spells the word `w`: character by character, with
/// a backslash before a blank or a `#` that belongs to the word, and with any other
/// backslash, before an ordinary character, as it is.
pub open spec fn spells(s: Seq<char>, w: Seq<char>) -> bool
    decreases w.len(),
{
    if w.len() == 0 {
        s.len() == 0
    } else {
        let c = w.last();
        ||| {
            &&& s.len() > 0 && s.last() == c
            &&& !text::is_white(c) && c != '\\'
            &&& spells(s.drop_last(), w.drop_last())
        }
        ||| {
            &&& s.len() > 1 && s.last() == c && s[s.len() - 2] == '\\'
            &&& c == ' ' || c == '#'
            &&& spells(s.take(s.len() - 2), w.drop_last())
        }
        ||| {
            &&& s.len() > 1 && s.last() == c && s[s.len() - 2] == '\\'
            &&& w.len() > 1 && w[w.len() - 2] == '\\'
            &&& !text::is_white(c) && c != '\\' && c != '#'
            &&& spells(s.take(s.len() - 2), w.take(w.len() - 2))
        }
    }
}

/// Whether `g` parts two words of a make rule: white space, and backslashes at the
/// end of a line.
pub open spec fn parts_words(g: Seq<char>) -> bool
    decreases g.len(),
{
    let n = g.len();
    ||| n > 0 && text::is_white(g.last()) && (n == 1 || parts_words(g.drop_last()))
    ||| {
        &&& n > 1 && g[n - 2] == '\\' && (g.last() == '\n' || g.last() == '\r')
        &&& n == 2 || parts_words(g.take(n - 2))
    }
}

/// The text of a make rule: words, each behind what parts it from the one before.
pub open spec fn rule_text(gaps: Seq<Seq<char>>, spelled: Seq<Seq<char>>) -> Seq<char>
    decreases spelled.len(),
{
    if spelled.len() == 0 {
        Seq::empty()
    } else {
        rule_text(gaps.drop_last(), spelled.drop_last()) + gaps.last() + spelled.last()
    }
}

proof fn lemma_rule_step(x: Seq<char>, c: char)
    ensures
        rule_state(x.push(c)) == rule_step(rule_state(x), c),
{
    assert(x.push(c).drop_last() =~= x);
}

proof fn lemma_spelled(x: Seq<char>, s: Seq<char>, w: Seq<char>)
    requires
        spells(s, w),
        !rule_state(x).escaped,
    ensures
        rule_state(x + s) == (RuleState {
            current: rule_state(x).current + w,
            ..rule_state(x)
        }),
    decreases w.len(),
{
    let st = rule_state(x);
    if w.len() == 0 {
        assert(x + s =~= x);
        assert(st.current + w =~= st.current);
    } else {
        let c = w.last();
        let n = s.len();
        if s.last() == c && !text::is_white(c) && c != '\\' && spells(s.drop_last(), w.drop_last()) {
            lemma_spelled(x, s.drop_last(), w.drop_last());
            assert(x + s =~= (x + s.drop_last()).push(c));
            lemma_rule_step(x + s.drop_last(), c);
            assert((st.current + w.drop_last()).push(c) =~= st.current + w);
        } else if (c == ' ' || c == '#') && spells(s.take(n - 2), w.drop_last()) {
            let y = x + s.take(n - 2);
            lemma_spelled(x, s.take(n - 2), w.drop_last());
            assert(x + s =~= y.push('\\').push(c));
            lemma_rule_step(y, '\\');
            lemma_rule_step(y.push('\\'), c);
            assert((st.current + w.drop_last()).push(c) =~= st.current + w);
        } else {
            let y = x + s.take(n - 2);
            lemma_spelled(x, s.take(n - 2), w.take(w.len() - 2));
            assert(x + s =~= y.push('\\').push(c));
            lemma_rule_step(y, '\\');
            lemma_rule_step(y.push('\\'), c);
            assert(!(c == '\n' || c == '\r' || c == ' '));
            assert((st.current + w.take(w.len() - 2)).push('\\').push(c) =~= st.current + w);
        }
    }
}

proof fn lemma_parted(x: Seq<char>, g: Seq<char>)
    requires
        parts_words(g),
        !rule_state(x).escaped,
    ensures
        rule_state(x + g) == word_ended(rule_state(x)),
    decreases g.len(),
{
    let n = g.len();
    let st = rule_state(x);
    if text::is_white(g.last()) && (n == 1 || parts_words(g.drop_last())) {
        if n > 1 {
            lemma_parted(x, g.drop_last());
        } else {
            assert(x + g.drop_last() =~= x);
        }
        assert(x + g =~= (x + g.drop_last()).push(g.last()));
        lemma_rule_step(x + g.drop_last(), g.last());
    } else {
        let y = x + g.take(n - 2);
        if n > 2 {
            lemma_parted(x, g.take(n - 2));
        } else {
            assert(y =~= x);
        }
        assert(x + g =~= y.push('\\').push(g.last()));
        lemma_rule_step(y, '\\');
        lemma_rule_step(y.push('\\'), g.last());
    }
}

proof fn lemma_rule_text(gaps: Seq<Seq<char>>, spelled: Seq<Seq<char>>, words: Seq<Seq<char>>)
    requires
        words.len() > 0,
        gaps.len() == words.len(),
        spelled.len() == words.len(),
        forall|i: int|
            0 <= i < words.len() ==> (#[trigger] words[i]).len() > 0 && spells(
                spelled[i],
                words[i],
            ),
        gaps[0].len() == 0 || parts_words(gaps[0]),
        forall|i: int| 0 < i < gaps.len() ==> parts_words(#[trigger] gaps[i]),
    ensures
        rule_state(rule_text(gaps, spelled)) == (RuleState {
            done: words.drop_last(),
            current: words.last(),
            escaped: false,
        }),
    decreases words.len(),
{
    let n = words.len() - 1;
    let front = rule_text(gaps.drop_last(), spelled.drop_last());
    let g = gaps.last();
    let none = Seq::<char>::empty();
    assert(words[n].len() > 0 && spells(spelled[n], words[n]));
    if n == 0 {
        assert(front =~= none);
        if g.len() == 0 {
            assert(front + g =~= none);
        } else {
            lemma_parted(none, g);
            assert(front + g =~= none + g);
        }
        assert(rule_state(front + g) == rule_state(none));
        assert(words.drop_last() =~= Seq::empty());
    } else {
        let w = words.drop_last();
        assert forall|i: int| 0 <= i < w.len() implies (#[trigger] w[i]).len() > 0 && spells(
            spelled.drop_last()[i],
            w[i],
        ) by {
            assert(w[i] == words[i]);
        }
        assert forall|i: int| 0 < i < gaps.drop_last().len() implies parts_words(
            #[trigger] gaps.drop_last()[i],
        ) by {
            assert(parts_words(gaps[i]));
        }
        lemma_rule_text(gaps.drop_last(), spelled.drop_last(), w);
        assert(parts_words(gaps[n]));
        lemma_parted(front, g);
        assert(w.drop_last().push(w.last()) =~= w);
    }
    lemma_spelled(front + g, spelled.last(), words.last());
    assert(none + words.last() =~= words.last());
}

/// No prerequisite of a make rule is lost, changed or made up, whatever its name
/// looks like: behind a target that ends in a colon, the files that were written,
/// parted by white space or by a backslash at the end of a line, are read back in
/// order.
pub proof fn law_depfile_names_every_file(
    gaps: Seq<Seq<char>>,
    spelled: Seq<Seq<char>>,
    target: Seq<char>,
    files: Seq<Seq<char>>,
    end: Seq<char>,
)
    requires
        gaps.len() == files.len() + 1,
        spelled.len() == files.len() + 1,
        target.len() > 0 && target.last() == ':' && spells(spelled[0], target),
        forall|i: int|
            0 <= i < files.len() ==> (#[trigger] files[i]).len() > 0 && spells(
                spelled[i + 1],
                files[i],
            ),
        gaps[0].len() == 0 || parts_words(gaps[0]),
        forall|i: int| 0 < i < gaps.len() ==> parts_words(#[trigger] gaps[i]),
        end.len() == 0 || parts_words(end),
    ensures
        prerequisites(rule_text(gaps, spelled) + end) == files,
{
    let words = seq![target] + files;
    assert forall|i: int| 0 <= i < words.len() implies (#[trigger] words[i]).len() > 0 && spells(
        spelled[i],
        words[i],
    ) by {
        if i > 0 {
            assert(words[i] == files[i - 1]);
        }
    }
    lemma_rule_text(gaps, spelled, words);
    let text = rule_text(gaps, spelled);
    if end.len() > 0 {
        lemma_parted(text, end);
    } else {
        assert(text + end =~= text);
    }
    assert(words.drop_last().push(words.last()) =~= words);
    reveal_strlit(":");
    assert(words[0] == target);
    assert(target.skip(target.len() - 1) =~= ":"@);
    assert(words.skip(1) =~= files);
}

/// A file whose name holds neither white space nor a backslash is spelled as it is.
pub proof fn law_plain_names_spell_themselves(w: Seq<char>)
    requires
        forall|i: int| 0 <= i < w.len() ==> !text::is_white(#[trigger] w[i]) && w[i] != '\\',
    ensures
        spells(w, w),
    decreases w.len(),
{
    if w.len() > 0 {
        assert forall|i: int| 0 <= i < w.drop_last().len() implies !text::is_white(
            #[trigger] w.drop_last()[i],
        ) && w.drop_last()[i] != '\\' by {
            assert(!text::is_white(w[i]));
        }
        assert(!text::is_white(w[w.len() - 1]));
        law_plain_names_spell_themselves(w.drop_last());
    }
}

/// What is recorded for an object is what was read last for it, and every other
/// object keeps its record.
pub proof fn law_recording_an_object(
    g: Seq<(Seq<char>, Seq<Seq<char>>)>,
    obj: Seq<char>,
    files: Seq<Seq<char>>,
    i: int,
)
    requires
        paths::same_path(obj, obj),
    ensures
        recorded(with_record(g, obj, files), obj) == Some(files),
        0 <= i < g.len() && !paths::same_path(g[i].0, obj) ==> with_record(g, obj, files)[i] == g[i],
        with_record(g, obj, files).len() <= g.len() + 1,
{
    let h = with_record(g, obj, files);
    lemma_object_at(g, obj);
    lemma_object_at(h, obj);
    let k = object_at(g, obj);
    let j = object_at(h, obj);
    if k < g.len() {
        assert(h[k].0 == g[k].0);
    } else {
        assert(h[k] == (obj, files));
    }
    if j < k {
        assert(h[j].0 == g[j].0);
        assert(!paths::same_path(g[j].0, obj));
    }
    assert(j <= k) by {
        if k < j {
            assert(!paths::same_path(h[k].0, obj));
        }
    }
}

/// Forgetting objects keeps exactly those that the build still has, with their
/// files, and in order.
pub proof fn law_only_current_objects_stay(
    g: Seq<(Seq<char>, Seq<Seq<char>>)>,
    current: Seq<Seq<char>>,
    e: (Seq<char>, Seq<Seq<char>>),
)
    ensures
        record_of(g, current).contains(e) <==> g.contains(e) && exists|k: int|
            0 <= k < current.len() && #[trigger] paths::same_path(current[k], e.0),
    decreases g.len(),
{
    reveal(Seq::filter);
    if g.len() > 0 {
        let front = g.drop_last();
        let a = record_of(front, current);
        let b = record_of(g, current);
        law_only_current_objects_stay(front, current, e);
        assert(g =~= front.push(g.last()));
        if front.contains(e) {
            let k = choose|k: int| 0 <= k < front.len() && front[k] == e;
            assert(g[k] == e);
        }
        if g.contains(e) && !front.contains(e) {
            let k = choose|k: int| 0 <= k < g.len() && g[k] == e;
            assert(k < front.len() ==> front[k] == e);
            assert(g.last() == e);
        }
        if a.contains(e) {
            let k = choose|k: int| 0 <= k < a.len() && a[k] == e;
            assert(b[k] == e);
        }
        if b.contains(e) && !a.contains(e) {
            let k = choose|k: int| 0 <= k < b.len() && b[k] == e;
            assert(k < a.len() ==> a[k] == e);
            assert(g.last() == e);
            assert(g[g.len() - 1] == e);
        }
        if g.last() == e && paths::has_path(current, e.0) {
            assert(b.last() == e);
            assert(b[b.len() - 1] == e);
        }
    }
}

/// The record of a profile lies in the project's build directory, in a file of its
/// own: the files of two profiles differ in name.
pub proof fn law_records_lie_apart(dir: Seq<char>, profile: Seq<char>, other: Seq<char>)
    ensures
        ({
            let build = paths::joined(paths::joined(dir, ".conjure"@), "build"@);
            &&& record_path(dir, profile) == paths::joined(
                paths::joined(build, "objdeps"@),
                profile + ".kdl"@,
            )
            &&& profile != other ==> profile + ".kdl"@ != other + ".kdl"@
        }),
{
    let p = profile + ".kdl"@;
    let q = other + ".kdl"@;
    if p == q {
        assert(p.take(p.len() - ".kdl"@.len()) =~= profile);
        assert(q.take(q.len() - ".kdl"@.len()) =~= other);
    }
}

} // verus!
