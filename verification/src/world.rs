//! What is on the disk, as far as laws speak of it.

use vstd::prelude::*;

use crate::path::PathView;
use crate::plan::PlanView;
use crate::remove::rels;

verus! {

/// What is at one place.
pub enum Node {
    Dir,
    /// A file, with its bytes.
    File(Seq<u8>),
    /// A link, with what it says.
    Link(Seq<u8>),
}

/// All that is on the disk.
pub struct Disk {
    /// What is at each place.
    pub nodes: Map<PathView, Node>,
    /// Which file each name is of. Two names of one file hold one number.
    pub files: Map<PathView, int>,
}

/// All that is at and below a place, by the path from there: what is at the place itself
/// is at the empty path. Where nothing is there, it is empty.
pub type Contents = Map<PathView, Node>;

/// Whether a plan lists what is at `p`. The top is always meant.
pub open spec fn lists(plan: PlanView, p: PathView) -> bool {
    p.is_empty() || plan.dirs.contains(p) || rels(plan).contains(p)
}

/// What a plan lists of some contents.
pub open spec fn listed(c: Contents, plan: PlanView) -> Contents {
    c.restrict(Set::new(|p: PathView| lists(plan, p)))
}

/// Whether there is nothing, or at most a directory with nothing in it.
pub open spec fn bare(c: Contents) -> bool {
    forall|p: PathView| #[trigger] c.dom().contains(p) ==> p.is_empty()
}

/// Whether all of `a` is in `b`, as it is there.
pub open spec fn within(a: Contents, b: Contents) -> bool {
    forall|p: PathView| #[trigger] a.dom().contains(p) ==> b.dom().contains(p) && a[p] == b[p]
}

/// Whether all of `whole` is in `a` or in `b`, as it was, and these hold nothing else.
pub open spec fn is_split(whole: Contents, a: Contents, b: Contents) -> bool {
    &&& within(a, whole)
    &&& within(b, whole)
    &&& forall|p: PathView| #[trigger]
        whole.dom().contains(p) ==> a.dom().contains(p) || b.dom().contains(p)
}

/// Contents that are split, with nothing of them in one place, are whole in the other.
pub proof fn law_split_is_whole(whole: Contents, a: Contents, b: Contents)
    requires
        is_split(whole, a, b),
    ensures
        a == Contents::empty() ==> b == whole,
        b == Contents::empty() ==> a == whole,
        within(whole, a.union_prefer_right(b)),
{
    if a == Contents::empty() {
        assert(b =~= whole);
    }
    if b == Contents::empty() {
        assert(a =~= whole);
    }
}

} // verus!
