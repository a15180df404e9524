//! Pinned dependency revisions (`conjure.lock`).
//!
//! The lockfile records, per remote dependency, the exact commit it resolved to
//! (plus the ref that led there). It is the standing point a build revisits: the
//! recorded commit is checked out, so builds are reproducible without network
//! access beyond the first clone.
//!
//! Local dependencies are absent: they have no commit to pin, so they are keyed by
//! a source fingerprint in the dependency cache instead.
use vstd::prelude::*;
use crate::names;
use crate::names::NameMap;
use crate::proj_parse::{Remote, RemoteV, Transport};
use crate::text;

verus! {

/// A single pinned dependency: where it came from and the commit to check out.
#[derive(Debug)]
pub struct LockedDep {
    pub remote: Option<Remote>,
    pub transport: Option<Transport>,
    pub git_ref: Option<String>,
    pub commit: String,
}

/// The model of a [`LockedDep`].
pub struct LockedDepV {
    pub remote: Option<RemoteV>,
    pub transport: Option<Transport>,
    pub git_ref: Option<Seq<char>>,
    pub commit: Seq<char>,
}

impl View for LockedDep {
    type V = LockedDepV;

    open spec fn view(&self) -> LockedDepV {
        LockedDepV {
            remote: text::opt(self.remote),
            transport: self.transport,
            git_ref: text::opt(self.git_ref),
            commit: self.commit@,
        }
    }
}

/// The `conjure.lock` contents.
#[derive(Debug)]
pub struct LockFile {
    lock: NameMap<LockedDep>,
}

impl View for LockFile {
    type V = Seq<(Seq<char>, LockedDepV)>;

    closed spec fn view(&self) -> Seq<(Seq<char>, LockedDepV)> {
        self.lock@
    }
}

impl Default for LockFile {
    /// A lockfile that pins nothing.
    fn default() -> (out: Self)
        ensures
            out@ == Seq::<(Seq<char>, LockedDepV)>::empty(),
    {
        LockFile { lock: NameMap::new() }
    }
}

impl LockFile {
    /// Pin `name` to `commit`, replacing any previous entry.
    pub fn lock(
        &mut self,
        name: &str,
        remote: Option<Remote>,
        transport: Option<Transport>,
        git_ref: Option<String>,
        commit: String,
    )
        ensures
            final(self)@ == names::put(
                old(self)@,
                name@,
                LockedDepV {
                    remote: text::opt(remote),
                    transport,
                    git_ref: text::opt(git_ref),
                    commit: commit@,
                },
            ),
    {
        self.lock.insert(name.to_owned(), LockedDep { remote, transport, git_ref, commit });
    }

    /// Drop the pin for `name`, e.g. when the dependency is removed.
    pub fn unlock(&mut self, name: &str)
        ensures
            final(self)@ == names::without(old(self)@, name@),
    {
        self.lock.remove(name);
    }

    /// Keep only the entries whose name satisfies `f`, so the lockfile can be
    /// pruned to match the current manifest.
    pub fn retain(&mut self, f: impl Fn(&str) -> bool)
        requires
            forall|s: &str| #[trigger] call_requires(f, (s,)),
        ensures
            exists|keep: Seq<bool>| #[trigger]
                names::picked(old(self)@, keep) == final(self)@ && names::answered_all(
                    f,
                    old(self)@,
                    keep,
                ),
    {
        let ghost before = self.lock@;
        self.lock.retain(f);
        proof {
            let keep = choose|keep: Seq<bool>| #[trigger]
                names::picked(before, keep) == self.lock@ && names::answered_all(f, before, keep);
            assert(names::picked(old(self)@, keep) == self@);
        }
    }

    /// All pins, keyed by dependency name.
    pub fn entries(&self) -> (out: &NameMap<LockedDep>)
        ensures
            out@ == self@,
    {
        &self.lock
    }

    /// The pinned commits, in the order of the lockfile.
    pub fn commits(&self) -> (out: Vec<String>)
        ensures
            text::texts(out@) == commits_of(self@),
    {
        let mut out = text::none();
        let mut i: usize = 0;
        proof {
            assert(self@.take(0) =~= Seq::empty());
            assert(commits_of(self@.take(0)) =~= Seq::empty());
        }
        while i < self.lock.len()
            invariant
                i <= self@.len(),
                self@ == self.lock@,
                text::texts(out@) == commits_of(self@.take(i as int)),
            decreases self@.len() - i,
        {
            text::push_text(&mut out, self.lock.value_at(i).commit.as_str());
            i += 1;
            proof {
                assert(commits_of(self@.take(i as int)) =~= commits_of(self@.take(i - 1)).push(
                    self@[i - 1].1.commit,
                ));
            }
        }
        proof {
            assert(self@.take(i as int) =~= self@);
        }
        out
    }
}

/// The commits of a lockfile, in its order.
pub open spec fn commits_of(lock: Seq<(Seq<char>, LockedDepV)>) -> Seq<Seq<char>> {
    lock.map_values(|e: (Seq<char>, LockedDepV)| e.1.commit)
}

/// The commit a name is pinned at.
pub open spec fn pinned(lock: Seq<(Seq<char>, LockedDepV)>, name: Seq<char>) -> Option<Seq<char>> {
    match names::lookup(lock, name) {
        Some(l) => Some(l.commit),
        None => None,
    }
}

/// Pinning a name pins it at that commit and leaves every other pin alone.
pub proof fn law_lock_pins(
    lock: Seq<(Seq<char>, LockedDepV)>,
    name: Seq<char>,
    entry: LockedDepV,
    other: Seq<char>,
)
    ensures
        pinned(names::put(lock, name, entry), name) == Some(entry.commit),
        other != name ==> pinned(names::put(lock, name, entry), other) == pinned(lock, other),
{
    names::law_put(lock, name, entry, other);
}

/// Unpinning a name drops its pin and leaves every other pin alone.
pub proof fn law_unlock(lock: Seq<(Seq<char>, LockedDepV)>, name: Seq<char>, other: Seq<char>)
    ensures
        pinned(names::without(lock, name), name) is None,
        other != name ==> pinned(names::without(lock, name), other) == pinned(lock, other),
{
    names::law_without(lock, name, other);
}

/// Unpinning a name right after it was pinned for the first time gives back the
/// lockfile as it was.
pub proof fn law_unlock_undoes_lock(
    lock: Seq<(Seq<char>, LockedDepV)>,
    name: Seq<char>,
    entry: LockedDepV,
)
    requires
        !names::holds(lock, name),
    ensures
        names::without(names::put(lock, name, entry), name) == lock,
{
    reveal(Seq::filter);
    let grown = lock.push((name, entry));
    assert(grown.drop_last() =~= lock);
    lemma_without_absent(lock, name);
}

proof fn lemma_without_absent<V>(m: Seq<(Seq<char>, V)>, name: Seq<char>)
    requires
        !names::holds(m, name),
    ensures
        names::without(m, name) == m,
    decreases m.len(),
{
    reveal(Seq::filter);
    names::lemma_position(m, name);
    if m.len() > 0 {
        let front = m.drop_last();
        assert forall|j: int| 0 <= j < front.len() implies (#[trigger] front[j]).0 != name by {
            assert(m[j].0 != name);
        }
        names::lemma_position_is(front, name, front.len() as int);
        lemma_without_absent(front, name);
        assert(m[m.len() - 1].0 != name);
        assert(names::without(m, name) =~= m);
    }
}

/// The commits of a lockfile are those of its pins, one for each and in order.
pub proof fn law_commits(lock: Seq<(Seq<char>, LockedDepV)>, i: int)
    ensures
        commits_of(lock).len() == lock.len(),
        0 <= i < lock.len() ==> commits_of(lock)[i] == lock[i].1.commit,
{
}

} // verus!
