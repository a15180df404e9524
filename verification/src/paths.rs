//! File paths as text.
//!
//! A path is the text that is written for it. What the pieces of a path are, and
//! how two paths are put together, is the business of `std::path`: the functions
//! here hand the text over and name what comes back. All of them are lexical:
//! none looks at the disk. What a separator is, and which paths are absolute, is
//! fixed by the platform that the library is built for.
use vstd::prelude::*;
use std::path::Path;

verus! {

/// What `Path::join` makes of two paths.
pub uninterp spec fn joined(base: Seq<char>, part: Seq<char>) -> Seq<char>;

/// What `Path::strip_prefix` leaves of a path.
pub uninterp spec fn stripped(path: Seq<char>, base: Seq<char>) -> Option<Seq<char>>;

/// What `Path::starts_with` says of two paths.
pub uninterp spec fn below(path: Seq<char>, base: Seq<char>) -> bool;

/// What `Path::with_extension` makes of a path.
pub uninterp spec fn extended(path: Seq<char>, extension: Seq<char>) -> Seq<char>;

/// What `Path::extension` finds at the end of a path.
pub uninterp spec fn extension_of(path: Seq<char>) -> Option<Seq<char>>;

/// Whether two texts are the same path: what `==` says of two `Path`s.
pub uninterp spec fn same_path(a: Seq<char>, b: Seq<char>) -> bool;

/// Whether one path comes before another: what `<` says of two `Path`s.
pub uninterp spec fn earlier_path(a: Seq<char>, b: Seq<char>) -> bool;

/// `Path::join`: `part` resolved against `base`. The result is named; that it is
/// `part` itself where `part` is absolute is not stated.
#[verifier::external_body]
pub(crate) fn join(base: &str, part: &str) -> (out: String)
    ensures
        out@ == joined(base@, part@),
{
    Path::new(base).join(part).to_string_lossy().into_owned()
}

/// `Path::strip_prefix`: what is left of `path` below `base`, if it lies there.
/// The result is named; of a path stripped of itself nothing is left.
#[verifier::external_body]
pub(crate) fn strip(path: &str, base: &str) -> (out: Option<String>)
    ensures
        crate::text::opt(out) == stripped(path@, base@),
        path@ == base@ ==> crate::text::opt(out) == Some(Seq::<char>::empty()),
{
    Path::new(path).strip_prefix(base).ok().map(|p| p.to_string_lossy().into_owned())
}

/// `Path::starts_with`: whether `path` is `base` or lies below it. The result is
/// named; a path starts with itself.
#[verifier::external_body]
pub(crate) fn is_below(path: &str, base: &str) -> (res: bool)
    ensures
        res == below(path@, base@),
        path@ == base@ ==> res,
{
    Path::new(path).starts_with(base)
}

/// `Path::with_extension`: `path` with another extension. The result is named.
/// An extension that holds a separator is left out: the call panics on it.
#[verifier::external_body]
pub(crate) fn with_extension(path: &str, extension: &str) -> (out: String)
    requires
        forall|i: int|
            0 <= i < extension@.len() ==> extension@[i] != '/' && extension@[i] != '\\',
    ensures
        out@ == extended(path@, extension@),
{
    Path::new(path).with_extension(extension).to_string_lossy().into_owned()
}

/// `Path::extension`: what follows the last dot of the file name. The result is
/// named; that a name which only begins with a dot has none is not stated.
#[verifier::external_body]
pub(crate) fn extension(path: &str) -> (out: Option<String>)
    ensures
        crate::text::opt(out) == extension_of(path@),
{
    Path::new(path).extension().map(|e| e.to_string_lossy().into_owned())
}

/// `==` on two `Path`s. The result is named; equal texts are equal paths.
#[verifier::external_body]
pub(crate) fn is_same(a: &str, b: &str) -> (res: bool)
    ensures
        res == same_path(a@, b@),
        a@ == b@ ==> res,
{
    Path::new(a) == Path::new(b)
}

/// `<` on two `Path`s. The result is named. `Path` is `Ord`, a total order that
/// agrees with `==`: of two paths exactly one comes before the other unless they are
/// the same, and what comes before the earlier one comes before the later one too.
#[verifier::external_body]
pub(crate) fn is_earlier(a: &str, b: &str) -> (res: bool)
    ensures
        res == earlier_path(a@, b@),
        res ==> !same_path(a@, b@) && !earlier_path(b@, a@),
        !res ==> same_path(a@, b@) || earlier_path(b@, a@),
        forall|c: Seq<char>| res && #[trigger] earlier_path(c, a@) ==> earlier_path(c, b@),
{
    Path::new(a) < Path::new(b)
}

/// Whether every path of a list comes before those behind it.
pub open spec fn in_order(v: Seq<Seq<char>>) -> bool {
    forall|i: int, j: int| 0 <= i < j < v.len() ==> earlier_path(#[trigger] v[i], #[trigger] v[j])
}

/// Whether a list of paths holds the path `p`.
pub open spec fn has_path(v: Seq<Seq<char>>, p: Seq<char>) -> bool {
    exists|i: int| 0 <= i < v.len() && #[trigger] same_path(v[i], p)
}

/// Whether a list of paths holds the path `p`.
pub fn holds_path(v: &[String], p: &str) -> (res: bool)
    ensures
        res == has_path(crate::text::texts(v@), p@),
{
    let ghost all = crate::text::texts(v@);
    let mut i: usize = 0;
    while i < v.len()
        invariant
            i <= v@.len(),
            all == crate::text::texts(v@),
            forall|j: int| 0 <= j < i ==> !#[trigger] same_path(all[j], p@),
        decreases v@.len() - i,
    {
        proof {
            assert(all[i as int] == v@[i as int]@);
        }
        if is_same(v[i].as_str(), p) {
            return true;
        }
        i += 1;
    }
    false
}

/// Whether `p` lies below some path of a list.
pub open spec fn below_any(p: Seq<char>, bases: Seq<Seq<char>>) -> bool {
    exists|i: int| 0 <= i < bases.len() && #[trigger] below(p, bases[i])
}

/// Whether `p` lies below some path of a list.
pub fn is_below_any(p: &str, bases: &[String]) -> (res: bool)
    ensures
        res == below_any(p@, crate::text::texts(bases@)),
{
    let ghost all = crate::text::texts(bases@);
    let mut i: usize = 0;
    while i < bases.len()
        invariant
            i <= bases@.len(),
            all == crate::text::texts(bases@),
            forall|j: int| 0 <= j < i ==> !#[trigger] below(p@, all[j]),
        decreases bases@.len() - i,
    {
        proof {
            assert(all[i as int] == bases@[i as int]@);
        }
        if is_below(p, bases[i].as_str()) {
            return true;
        }
        i += 1;
    }
    false
}

} // verus!
