//! On which volume something is. This is only for reports: what a move does is
//! decided by trying to rename.

use vstd::prelude::*;

use crate::error::IoFault;
use crate::path::PathBuf;
use crate::path::PathView;

verus! {

/// The path with its last `k` components taken away.
pub open spec fn up(p: PathView, k: int) -> PathView {
    PathView { parts: p.parts.take(p.parts.len() - k), ..p }
}

/// The path and all above it, from it upwards.
pub open spec fn above(p: PathView) -> Seq<PathView> {
    Seq::new(p.parts.len() + 1, |k: int| up(p, k))
}

/// The path and all above it, from it upwards.
pub fn ancestors(path: &PathBuf) -> (r: Vec<PathBuf>)
    ensures
        crate::plan::path_views(r@) == above(path@),
{
    let mut r: Vec<PathBuf> = Vec::new();
    let mut cur = path.clone();
    let mut going: bool = true;
    assert(path@.parts.take(path@.parts.len() as int) =~= path@.parts);
    while going
        invariant
            r.len() <= path@.parts.len() + 1,
            going ==> r.len() <= path@.parts.len() && cur@ == up(path@, r.len() as int),
            !going ==> r.len() == path@.parts.len() + 1,
            forall|k: int| 0 <= k < r.len() ==> (#[trigger] r@[k])@ == up(path@, k),
        decreases path@.parts.len() + 1 - r.len(),
    {
        let next = cur.parent();
        let ghost k = r.len() as int;
        r.push(cur.clone());
        match next {
            Some(p) => {
                assert(up(path@, k).parts.drop_last() =~= up(path@, k + 1).parts);
                cur = p;
            },
            None => {
                going = false;
            },
        }
    }
    assert(crate::plan::path_views(r@) =~= above(path@));
    r
}

/// The first of `there` that is true, from `k` on.
pub open spec fn first_there(there: Seq<bool>, k: int) -> int
    decreases there.len() - k,
{
    if k >= there.len() || there[k] {
        k
    } else {
        first_there(there, k + 1)
    }
}

/// The nearest of a path and all above it that is there.
pub open spec fn nearest(p: PathView, there: Seq<bool>) -> Option<PathView> {
    let k = first_there(there, 0);
    if k < there.len() {
        Some(up(p, k))
    } else {
        None
    }
}

/// The nearest of a path and all above it that is there: what says on which
/// volume something will be that is not there yet. `there` says of each of
/// [`ancestors`] whether it is.
pub fn nearest_existing_ancestor(path: &PathBuf, there: &Vec<bool>) -> (r: Option<PathBuf>)
    requires
        there.len() == path@.parts.len() + 1,
    ensures
        match r {
            Some(p) => nearest(path@, there@) == Some(p@),
            None => nearest(path@, there@) is None,
        },
{
    let mut k: usize = 0;
    let mut cur = path.clone();
    assert(path@.parts.take(path@.parts.len() as int) =~= path@.parts);
    while k < there.len()
        invariant
            0 <= k <= there.len(),
            there.len() == path@.parts.len() + 1,
            k < there.len() ==> cur@ == up(path@, k as int),
            first_there(there@, 0) == first_there(there@, k as int),
        decreases there.len() - k,
    {
        if there[k] {
            return Some(cur);
        }
        if let Some(p) = cur.parent() {
            assert(up(path@, k as int).parts.drop_last() =~= up(path@, k + 1).parts);
            cur = p;
        }
        k = k + 1;
    }
    None
}

proof fn lemma_first_there(there: Seq<bool>, k: int)
    requires
        0 <= k <= there.len(),
    ensures
        k <= first_there(there, k) <= there.len(),
        first_there(there, k) < there.len() ==> there[first_there(there, k)],
        forall|j: int| k <= j < first_there(there, k) ==> !#[trigger] there[j],
    decreases there.len() - k,
{
    if k < there.len() && !there[k] {
        lemma_first_there(there, k + 1);
    }
}

/// What is nearest is above the path and there, nothing nearer is, and there is
/// something nearest just if anything is there.
pub proof fn law_nearest(p: PathView, there: Seq<bool>)
    requires
        there.len() == p.parts.len() + 1,
    ensures
        nearest(p, there) is Some <==> exists|j: int| 0 <= j < there.len() && #[trigger] there[j],
        nearest(p, there) matches Some(q) ==> p.starts_with(q) && exists|k: int|
            0 <= k < there.len() && #[trigger] there[k] && q == up(p, k) && forall|j: int|
                0 <= j < k ==> !#[trigger] there[j],
{
    lemma_first_there(there, 0);
    let k = first_there(there, 0);
    if k < there.len() {
        assert(there[k]);
        let q = up(p, k);
        assert(q.parts =~= p.parts.subrange(0, q.parts.len() as int));
    }
}

/// Whether two places are on one volume, where both volumes are known.
pub fn same_volume(source: &Result<u64, IoFault>, anchor: &Option<Result<u64, IoFault>>) -> (r:
    Option<bool>)
    ensures
        r == match (*source, *anchor) {
            (Ok(a), Some(Ok(b))) => Some(a == b),
            _ => None,
        },
{
    match (source, anchor) {
        (Ok(a), Some(Ok(b))) => Some(*a == *b),
        _ => None,
    }
}

/// How many bytes are free where something will be, where that is known.
pub fn available_at(space: &Option<Result<u64, IoFault>>) -> (r: Option<u64>)
    ensures
        r == match *space {
            Some(Ok(n)) => Some(n),
            _ => None,
        },
{
    match space {
        Some(Ok(n)) => Some(*n),
        _ => None,
    }
}

/// A path and all above it are listed upwards: it is the first, each that follows is the
/// parent of the one before, and the last has none.
pub proof fn law_above_is_upwards(p: PathView, k: int)
    requires
        0 <= k < above(p).len(),
    ensures
        above(p)[0] == p,
        k + 1 < above(p).len() ==> above(p)[k].parent() == Some(above(p)[k + 1]),
        k + 1 == above(p).len() ==> above(p)[k].parent() is None,
{
    assert(p.parts.take(p.parts.len() as int) =~= p.parts);
    if k + 1 < above(p).len() {
        assert(up(p, k).parts.drop_last() =~= up(p, k + 1).parts);
    }
}

} // verus!
