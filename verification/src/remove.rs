//! Removing the source once its data is elsewhere.
//!
//! A directory can only be removed once it is empty, so removal goes from the
//! leaves to the root: a [`Broker`] keeps count of the directories that each one
//! still has inside, and hands a directory out when there are none left.
//!
//! The data is safe at the target by then, so one failure stops nothing: what
//! can be removed is removed, and the rest is reported.

use vstd::prelude::*;

use crate::error::failed_views;
use crate::error::outcome;
use crate::error::outcomes;
use crate::error::FailedItem;
use crate::error::FailedView;
use crate::error::FaultKind;
use crate::error::IoFault;
use crate::lookup::PathIndex;
use crate::path::PathBuf;
use crate::path::PathView;
use crate::path::Style;
use crate::plan::Plan;
use crate::plan::PlanView;
use crate::survey::is_tree;

verus! {

/// How many of the first `n` directories are in `i` and not removed yet.
pub open spec fn left_among(parent: Seq<int>, done: Seq<bool>, i: int, n: int) -> nat
    decreases n,
{
    if n <= 1 {
        0
    } else {
        left_among(parent, done, i, n - 1) + if parent[n - 1] == i && !done[n - 1] {
            1nat
        } else {
            0nat
        }
    }
}

/// The directories to remove, by number: 0 is the source, and the others have theirs
/// in the order in which they are listed, whatever that is.
#[verifier::ext_equal]
pub struct BrokerView {
    /// Of each directory the one that it is in.
    pub parent: Seq<int>,
    /// How deep each directory is.
    pub depth: Seq<nat>,
    /// Those that can be removed, in the order in which they could.
    pub ready: Seq<int>,
    /// How many of these were handed out.
    pub handed: nat,
    /// Of each directory whether it was dealt with.
    pub done: Seq<bool>,
}

impl BrokerView {
    /// How many directories are in `i` and not dealt with.
    pub open spec fn left(self, i: int) -> nat {
        left_among(self.parent, self.done, i, self.parent.len() as int)
    }

    /// Whether a directory was handed out.
    pub open spec fn is_out(self, i: int) -> bool {
        exists|m: int| 0 <= m < self.handed && #[trigger] self.ready[m] == i
    }

    /// Whether everything was dealt with.
    pub open spec fn finished(self) -> bool {
        forall|i: int| 0 <= i < self.done.len() ==> #[trigger] self.done[i]
    }

    /// That the numbers fit the directories, and that just those are ready that
    /// have nothing left inside, each once.
    pub open spec fn sound(self) -> bool {
        &&& self.parent.len() >= 1
        &&& self.done.len() == self.parent.len()
        &&& self.depth.len() == self.parent.len()
        &&& forall|k: int|
            1 <= k < self.parent.len() ==> 0 <= #[trigger] self.parent[k] < self.parent.len()
                && self.depth[self.parent[k]] < self.depth[k]
        &&& self.handed <= self.ready.len()
        &&& forall|m: int| 0 <= m < self.ready.len() ==> 0 <= #[trigger] self.ready[m] < self.parent.len()
        &&& self.ready.no_duplicates()
        &&& forall|i: int|
            0 <= i < self.parent.len() ==> (#[trigger] self.ready.contains(i) <==> self.left(i) == 0)
        &&& forall|i: int| 0 <= i < self.done.len() && #[trigger] self.done[i] ==> self.is_out(i)
    }

    /// The state once the next directory is handed out.
    pub open spec fn taken(self) -> BrokerView {
        if self.handed < self.ready.len() {
            BrokerView { handed: self.handed + 1, ..self }
        } else {
            self
        }
    }

    /// The state once a directory was dealt with. One that was not handed out is
    /// ignored.
    pub open spec fn marked(self, i: int) -> BrokerView {
        if !(0 <= i < self.done.len()) || self.done[i] || !self.is_out(i) {
            self
        } else {
            let b = BrokerView { done: self.done.update(i, true), ..self };
            if i > 0 && b.left(self.parent[i]) == 0 {
                BrokerView { ready: self.ready.push(self.parent[i]), ..b }
            } else {
                b
            }
        }
    }
}

proof fn lemma_left_update(parent: Seq<int>, done: Seq<bool>, k: int, i: int, n: int)
    requires
        parent.len() == done.len(),
        1 <= k < parent.len(),
        !done[k],
        n <= parent.len(),
    ensures
        left_among(parent, done.update(k, true), i, n) == if parent[k] == i && k < n {
            left_among(parent, done, i, n) - 1
        } else {
            left_among(parent, done, i, n) as int
        },
    decreases n,
{
    if n > 1 {
        lemma_left_update(parent, done, k, i, n - 1);
    }
}

proof fn lemma_left_zero(parent: Seq<int>, done: Seq<bool>, i: int, n: int)
    requires
        parent.len() == done.len(),
        n <= parent.len(),
    ensures
        left_among(parent, done, i, n) == 0 <==> (forall|k: int|
            1 <= k < n && parent[k] == i ==> #[trigger] done[k]),
    decreases n,
{
    if n > 1 {
        lemma_left_zero(parent, done, i, n - 1);
        if left_among(parent, done, i, n) == 0 {
            assert(left_among(parent, done, i, n - 1) == 0);
        } else if forall|k: int| 1 <= k < n && parent[k] == i ==> #[trigger] done[k] {
            assert(parent[n - 1] == i ==> done[n - 1]);
        }
    }
}

proof fn lemma_left_root(parent: Seq<int>, done: Seq<bool>, i: int, n: int)
    requires
        parent.len() == done.len(),
        1 <= done.len(),
        n <= parent.len(),
    ensures
        left_among(parent, done.update(0, true), i, n) == left_among(parent, done, i, n),
    decreases n,
{
    if n > 1 {
        lemma_left_root(parent, done, i, n - 1);
    }
}

/// A directory is ready only once all that it has inside was dealt with.
pub proof fn law_leaves_first(b: BrokerView, i: int, k: int)
    requires
        b.sound(),
        b.ready.contains(i),
        1 <= k < b.parent.len(),
        b.parent[k] == i,
    ensures
        b.done[k],
{
    let m = choose|m: int| 0 <= m < b.ready.len() && b.ready[m] == i;
    assert(0 <= b.ready[m] < b.parent.len());
    lemma_left_zero(b.parent, b.done, i, b.parent.len() as int);
}

/// Whether the directory `k` is somewhere below `i`.
pub open spec fn is_below(b: BrokerView, k: int, i: int) -> bool
    decreases b.depth[k],
    when b.sound()
{
    1 <= k < b.parent.len() && (b.parent[k] == i || is_below(b, b.parent[k], i))
}

/// A directory is handed out only once all that is anywhere below it was dealt with.
pub proof fn law_all_below_first(b: BrokerView, i: int, k: int)
    requires
        b.sound(),
        b.ready.contains(i),
        is_below(b, k, i),
    ensures
        b.done[k],
    decreases b.depth[k],
{
    let p = b.parent[k];
    if p == i {
        law_leaves_first(b, i, k);
    } else {
        law_all_below_first(b, i, p);
        assert(b.is_out(p));
        let m = choose|m: int| 0 <= m < b.handed && #[trigger] b.ready[m] == p;
        assert(b.ready.contains(p));
        law_leaves_first(b, p, k);
    }
}

/// The source itself comes last: once it is ready, all else was dealt with.
pub proof fn law_root_last(b: BrokerView, k: int)
    requires
        b.sound(),
        b.ready.contains(0),
        1 <= k < b.parent.len(),
    ensures
        b.done[k],
    decreases b.depth[k],
{
    let p = b.parent[k];
    if p > 0 {
        law_root_last(b, p);
        assert(b.is_out(p));
        let m = choose|m: int| 0 <= m < b.handed && #[trigger] b.ready[m] == p;
        assert(b.ready.contains(p));
    }
    law_leaves_first(b, p, k);
}

/// Removal never gets stuck: while something is not dealt with, something that
/// is not dealt with is ready.
pub proof fn law_never_stuck(b: BrokerView)
    requires
        b.sound(),
        !b.finished(),
    ensures
        exists|i: int| 0 <= i < b.done.len() && !b.done[i] && #[trigger] b.ready.contains(i),
{
    let i = choose|i: int| 0 <= i < b.done.len() && !#[trigger] b.done[i];
    lemma_deepest_open(b.done, b.depth, b.done.len() as int, i);
    let k = choose|k: int|
        0 <= k < b.done.len() && !b.done[k] && forall|j: int|
            0 <= j < b.done.len() && b.depth[k] < b.depth[j] ==> #[trigger] b.done[j];
    lemma_left_zero(b.parent, b.done, k, b.parent.len() as int);
    assert forall|j: int| 1 <= j < b.parent.len() && b.parent[j] == k implies #[trigger] b.done[j] by {
        assert(b.depth[b.parent[j]] < b.depth[j]);
    }
    assert(b.ready.contains(k));
}

proof fn lemma_deepest_open(done: Seq<bool>, depth: Seq<nat>, n: int, i: int)
    requires
        done.len() == depth.len(),
        0 <= i < n <= done.len(),
        !done[i],
    ensures
        exists|k: int|
            0 <= k < n && !done[k] && forall|j: int|
                0 <= j < n && depth[k] < depth[j] ==> #[trigger] done[j],
    decreases n,
{
    if n == 1 {
        assert(!done[0]);
    } else if i == n - 1 && (forall|j: int| 0 <= j < n - 1 && depth[i] < depth[j] ==> #[trigger] done[j]) {
        assert(!done[i]);
    } else {
        let m = if i < n - 1 {
            i
        } else {
            choose|j: int| 0 <= j < n - 1 && depth[i] < depth[j] && !#[trigger] done[j]
        };
        lemma_deepest_open(done, depth, n - 1, m);
        let k = choose|k: int|
            0 <= k < n - 1 && !done[k] && forall|j: int|
                0 <= j < n - 1 && depth[k] < depth[j] ==> #[trigger] done[j];
        if depth[k] < depth[n - 1] && !done[n - 1] {
            assert forall|j: int| 0 <= j < n && depth[n - 1] < depth[j] implies #[trigger] done[j] by {}
        } else {
            assert forall|j: int| 0 <= j < n && depth[k] < depth[j] implies #[trigger] done[j] by {}
        }
    }
}

/// Handing out and dealing with directories keeps the numbers in order.
pub proof fn law_broker_sound(b: BrokerView, i: int)
    requires
        b.sound(),
    ensures
        b.taken().sound(),
        b.marked(i).sound(),
{
    let t = b.taken();
    if b.handed < b.ready.len() {
        assert forall|k: int| 0 <= k < t.done.len() && #[trigger] t.done[k] implies t.is_out(k) by {
            assert(b.is_out(k));
            let m = choose|m: int| 0 <= m < b.handed && #[trigger] b.ready[m] == k;
            assert(t.ready[m] == k);
        }
    }
    lemma_marked_sound(b, i);
}

proof fn lemma_marked_sound(b: BrokerView, i: int)
    requires
        b.sound(),
    ensures
        b.marked(i).sound(),
{
    if 0 <= i < b.done.len() && !b.done[i] && b.is_out(i) {
        let n = b.parent.len() as int;
        let t = b.marked(i);
        let done2 = b.done.update(i, true);
        assert(t.done == done2);
        if i > 0 {
            let p = b.parent[i];
            assert forall|x: int| 0 <= x < n implies (#[trigger] t.ready.contains(x) <==> t.left(x)
                == 0) by {
                lemma_left_update(b.parent, b.done, i, x, n);
                assert(b.ready.contains(x) <==> b.left(x) == 0);
                if x == p {
                    lemma_left_zero(b.parent, b.done, p, n);
                    assert(!b.done[i]);
                    assert(b.left(p) > 0);
                    if t.left(p) == 0 {
                        assert(t.ready[b.ready.len() as int] == p);
                    } else {
                        assert(t.ready == b.ready);
                    }
                } else {
                    if b.ready.contains(x) {
                        let m = choose|m: int| 0 <= m < b.ready.len() && b.ready[m] == x;
                        assert(t.ready[m] == x);
                    }
                    if t.ready.contains(x) {
                        let m = choose|m: int| 0 <= m < t.ready.len() && t.ready[m] == x;
                        assert(b.ready[m] == x);
                    }
                }
            }
            lemma_left_zero(b.parent, b.done, p, n);
            assert(b.left(p) > 0);
            assert(!b.ready.contains(p));
        } else {
            assert forall|x: int| 0 <= x < n implies (#[trigger] t.ready.contains(x) <==> t.left(x)
                == 0) by {
                lemma_left_root(b.parent, b.done, x, n);
                assert(b.ready.contains(x) <==> b.left(x) == 0);
            }
        }
        assert forall|k: int| 0 <= k < t.done.len() && #[trigger] t.done[k] implies t.is_out(k) by {
            assert(b.is_out(k)) by {
                if k != i {
                    assert(b.done[k]);
                }
            }
            let m = choose|m: int| 0 <= m < b.handed && #[trigger] b.ready[m] == k;
            assert(t.ready[m] == k);
        }
    }
}

/// The directories that a plan has removed: the source itself, then those below.
pub open spec fn all_dirs(dirs: Seq<PathView>, top: PathView) -> Seq<PathView> {
    seq![top] + dirs
}

/// The source, seen from itself.
pub open spec fn top_of(style: Style) -> PathView {
    PathView { style, prefix: None, rooted: false, parts: Seq::empty() }
}

/// Whether `parent` says by number which directory each one is in.
pub open spec fn numbered(all: Seq<PathView>, parent: Seq<int>) -> bool {
    &&& parent.len() == all.len()
    &&& forall|k: int|
        1 <= k < all.len() ==> 0 <= #[trigger] parent[k] < all.len() && all[k].parent() == Some(
            all[parent[k]],
        )
}

/// How deep each of the directories is.
pub open spec fn depths(all: Seq<PathView>) -> Seq<nat> {
    Seq::new(all.len(), |k: int| all[k].parts.len())
}

/// Whether the directories of a plan are below `top`, each listed once, and with each
/// the one that it is in.
pub open spec fn removable(dirs: Seq<PathView>, top: PathView) -> bool {
    &&& dirs.no_duplicates()
    &&& forall|i: int|
        0 <= i < dirs.len() ==> (#[trigger] dirs[i].parent() matches Some(p) && (p == top
            || dirs.contains(p)))
}

/// A tree that was scanned can be removed.
pub proof fn law_tree_is_removable(dirs: Seq<PathView>, top: PathView)
    requires
        is_tree(dirs, top),
    ensures
        removable(dirs, top),
{
    assert forall|i: int| 0 <= i < dirs.len() implies (#[trigger] dirs[i].parent() matches Some(p)
        && (p == top || dirs.contains(p))) by {
        let p = dirs[i].parent()->0;
        if p != top {
            let j = choose|j: int| 0 <= j < i && #[trigger] dirs[j] == p;
            assert(dirs.contains(p));
        }
    }
}

/// That nothing was dealt with.
pub open spec fn none_done(n: nat) -> Seq<bool> {
    Seq::new(n, |i: int| false)
}

/// Those of the first `m` directories that have none inside.
pub open spec fn leaves(parent: Seq<int>, m: int) -> Seq<int>
    decreases m,
{
    if m <= 0 {
        Seq::empty()
    } else if left_among(parent, none_done(parent.len()), m - 1, parent.len() as int) == 0 {
        leaves(parent, m - 1).push(m - 1)
    } else {
        leaves(parent, m - 1)
    }
}

impl BrokerView {
    /// The state in which removal begins: the leaves are ready.
    pub open spec fn start(parent: Seq<int>, depth: Seq<nat>) -> BrokerView {
        BrokerView {
            parent,
            depth,
            ready: leaves(parent, parent.len() as int),
            handed: 0,
            done: none_done(parent.len()),
        }
    }
}

proof fn lemma_leaves(parent: Seq<int>, m: int)
    requires
        0 <= m <= parent.len(),
    ensures
        forall|i: int|
            #[trigger] leaves(parent, m).contains(i) <==> 0 <= i < m && left_among(
                parent,
                none_done(parent.len()),
                i,
                parent.len() as int,
            ) == 0,
        forall|k: int| 0 <= k < leaves(parent, m).len() ==> 0 <= #[trigger] leaves(parent, m)[k] < m,
        leaves(parent, m).no_duplicates(),
        leaves(parent, m).len() <= m,
    decreases m,
{
    if m > 0 {
        lemma_leaves(parent, m - 1);
        let a = leaves(parent, m - 1);
        let r = leaves(parent, m);
        assert forall|i: int| #[trigger] r.contains(i) <==> 0 <= i < m && left_among(
            parent,
            none_done(parent.len()),
            i,
            parent.len() as int,
        ) == 0 by {
            if r.contains(i) {
                let k = choose|k: int| 0 <= k < r.len() && r[k] == i;
                if k < a.len() {
                    assert(a[k] == i);
                    assert(a.contains(i));
                }
            }
            if 0 <= i < m && left_among(parent, none_done(parent.len()), i, parent.len() as int)
                == 0 {
                if i < m - 1 {
                    assert(a.contains(i));
                    let k = choose|k: int| 0 <= k < a.len() && a[k] == i;
                    assert(r[k] == i);
                } else {
                    assert(r[a.len() as int] == i);
                }
            }
        }
    }
}

/// Removal begins with the numbers in order.
pub proof fn law_broker_begins(all: Seq<PathView>, parent: Seq<int>)
    requires
        numbered(all, parent),
        all.len() >= 1,
    ensures
        BrokerView::start(parent, depths(all)).sound(),
{
    lemma_leaves(parent, parent.len() as int);
    let b = BrokerView::start(parent, depths(all));
    assert forall|k: int| 1 <= k < b.parent.len() implies 0 <= #[trigger] b.parent[k]
        < b.parent.len() && b.depth[b.parent[k]] < b.depth[k] by {
        assert(all[k].parent() == Some(all[parent[k]]));
    }
}

proof fn lemma_left_prefix(
    a: Seq<int>,
    da: Seq<bool>,
    b: Seq<int>,
    db: Seq<bool>,
    i: int,
    n: int,
)
    requires
        n <= a.len(),
        n <= b.len(),
        forall|k: int| 0 <= k < n ==> a[k] == b[k],
        forall|k: int| 0 <= k < n ==> da[k] == db[k],
    ensures
        left_among(a, da, i, n) == left_among(b, db, i, n),
    decreases n,
{
    if n > 1 {
        lemma_left_prefix(a, da, b, db, i, n - 1);
    }
}

proof fn lemma_left_bound(parent: Seq<int>, done: Seq<bool>, i: int, n: int)
    ensures
        left_among(parent, done, i, n) <= if n < 0 {
            0
        } else {
            n
        },
    decreases n,
{
    if n > 1 {
        lemma_left_bound(parent, done, i, n - 1);
    }
}

/// Numbers as integers.
pub open spec fn ints(v: Seq<usize>) -> Seq<int> {
    Seq::new(v.len(), |i: int| v[i] as int)
}

/// Which directory can be removed when.
pub struct Broker {
    dirs: PathIndex,
    parent: Vec<usize>,
    left: Vec<usize>,
    ready: Vec<usize>,
    handed: usize,
    out: Vec<bool>,
    done: Vec<bool>,
    open: usize,
}

impl View for Broker {
    type V = BrokerView;

    closed spec fn view(&self) -> BrokerView {
        BrokerView {
            parent: ints(self.parent@),
            depth: depths(self.dirs@),
            ready: ints(self.ready@),
            handed: self.handed as nat,
            done: self.done@,
        }
    }
}

/// How many are not dealt with.
pub open spec fn count_open(done: Seq<bool>) -> nat
    decreases done.len(),
{
    if done.len() == 0 {
        0
    } else {
        count_open(done.drop_last()) + if done.last() {
            0nat
        } else {
            1nat
        }
    }
}

proof fn lemma_count_open(done: Seq<bool>)
    ensures
        count_open(done) <= done.len(),
        count_open(done) == 0 <==> (forall|i: int| 0 <= i < done.len() ==> #[trigger] done[i]),
    decreases done.len(),
{
    if done.len() > 0 {
        let rest = done.drop_last();
        lemma_count_open(rest);
        if count_open(done) == 0 {
            assert forall|i: int| 0 <= i < done.len() implies #[trigger] done[i] by {
                if i < rest.len() {
                    assert(rest[i]);
                }
            }
        } else if forall|i: int| 0 <= i < done.len() ==> #[trigger] done[i] {
            assert(done[done.len() - 1]);
            assert forall|i: int| 0 <= i < rest.len() implies #[trigger] rest[i] by {
                assert(done[i]);
            }
        }
    }
}

proof fn lemma_count_open_mark(done: Seq<bool>, i: int)
    requires
        0 <= i < done.len(),
        !done[i],
    ensures
        count_open(done.update(i, true)) + 1 == count_open(done),
    decreases done.len(),
{
    let u = done.update(i, true);
    if i == done.len() - 1 {
        assert(u.drop_last() =~= done.drop_last());
    } else {
        assert(u.drop_last() =~= done.drop_last().update(i, true));
        lemma_count_open_mark(done.drop_last(), i);
    }
}

proof fn lemma_count_open_none(n: nat)
    ensures
        count_open(none_done(n)) == n,
    decreases n,
{
    if n > 0 {
        assert(none_done(n).drop_last() =~= none_done((n - 1) as nat));
        lemma_count_open_none((n - 1) as nat);
    }
}

impl Broker {
    /// The directories by number.
    pub closed spec fn names(&self) -> Seq<PathView> {
        self.dirs@
    }

    /// That the books are kept.
    pub closed spec fn wf(&self) -> bool {
        &&& self.dirs.wf()
        &&& self@.sound()
        &&& numbered(self.dirs@, self@.parent)
        &&& self.left.len() == self.parent.len()
        &&& forall|i: int| 0 <= i < self.left.len() ==> #[trigger] self.left@[i] == self@.left(i)
        &&& self.out.len() == self.parent.len()
        &&& forall|i: int| 0 <= i < self.out.len() ==> #[trigger] self.out@[i] == self@.is_out(i)
        &&& self.open == count_open(self.done@)
    }

    /// What the books say.
    pub proof fn lemma_wf(&self)
        requires
            self.wf(),
        ensures
            self@.sound(),
            numbered(self.names(), self@.parent),
    {
    }

    /// Numbers the directories of a plan, and looks up for each the one that it is in.
    /// The order in which they are listed does not matter. There is no number to be had
    /// where one is listed twice, or the one that it is in is not.
    pub fn new(plan: &Plan, style: Style) -> (r: Option<Broker>)
        ensures
            match r {
                Some(b) => {
                    &&& removable(plan@.dirs, top_of(style))
                    &&& b.wf()
                    &&& b.names() == all_dirs(plan@.dirs, top_of(style))
                    &&& b@ == BrokerView::start(b@.parent, depths(b.names()))
                },
                None => !removable(plan@.dirs, top_of(style)),
            },
    {
        let ghost top = top_of(style);
        let ghost all = all_dirs(plan@.dirs, top);
        let mut dirs = PathIndex::new();
        dirs.push(PathBuf::new(style));
        let mut left: Vec<usize> = Vec::new();
        left.push(0);
        let mut i: usize = 0;
        assert(dirs@ =~= all.take(1));
        while i < plan.dirs.len()
            invariant
                0 <= i <= plan.dirs.len(),
                top == top_of(style),
                all == all_dirs(plan@.dirs, top),
                dirs.wf(),
                dirs@ == all.take(i + 1),
                left.len() == i + 1,
                forall|k: int| 0 <= k < left.len() ==> #[trigger] left@[k] == 0,
                dirs@.no_duplicates(),
            decreases plan.dirs.len() - i,
        {
            let dir = &plan.dirs[i];
            assert(plan@.dirs[i as int] == dir@);
            assert(all[i + 1] == dir@);
            if let Some(k) = dirs.find(dir) {
                proof {
                    if k > 0 {
                        assert(plan@.dirs[k - 1] == plan@.dirs[i as int]);
                    } else {
                        assert(dir@ == top);
                        assert(plan@.dirs[i as int].parent() is None);
                    }
                }
                return None;
            }
            let ghost dirs0 = dirs@;
            let ghost n = dirs@.len() as int;
            dirs.push(dir.clone());
            left.push(0);
            proof {
                assert(dirs@ =~= all.take(i + 2));
                assert forall|a: int, b: int|
                    0 <= a < dirs@.len() && 0 <= b < dirs@.len() && a != b implies dirs@[a]
                    != dirs@[b] by {
                    if a == n {
                        assert(dirs0.contains(dirs0[b]));
                    } else if b == n {
                        assert(dirs0.contains(dirs0[a]));
                    } else {
                        assert(dirs0[a] != dirs0[b]);
                    }
                }
            }
            i = i + 1;
        }
        assert(all.take(i + 1) =~= all);
        let mut parent: Vec<usize> = Vec::new();
        parent.push(0);
        let mut m: usize = 0;
        while m < plan.dirs.len()
            invariant
                0 <= m <= plan.dirs.len(),
                top == top_of(style),
                all == all_dirs(plan@.dirs, top),
                dirs.wf(),
                dirs@ == all,
                parent.len() == m + 1,
                left.len() == all.len(),
                forall|k: int|
                    1 <= k <= m ==> 0 <= #[trigger] ints(parent@)[k] < all.len() && all[k].parent()
                        == Some(all[ints(parent@)[k]]),
                forall|k: int|
                    0 <= k < left.len() ==> #[trigger] left@[k] == left_among(
                        ints(parent@),
                        none_done(parent.len() as nat),
                        k,
                        parent.len() as int,
                    ),
            decreases plan.dirs.len() - m,
        {
            let dir = &plan.dirs[m];
            assert(plan@.dirs[m as int] == dir@);
            assert(all[m + 1] == dir@);
            let up = match dir.parent() {
                Some(p) => p,
                None => {
                    return None;
                },
            };
            let j: usize = match dirs.find(&up) {
                Some(j) => j,
                None => {
                    proof {
                        assert(all[0] == top);
                        if plan@.dirs.contains(up@) {
                            let k = choose|k: int|
                                0 <= k < plan@.dirs.len() && plan@.dirs[k] == up@;
                            assert(all[k + 1] == up@);
                        }
                    }
                    return None;
                },
            };
            let ghost parent0 = ints(parent@);
            let ghost left0 = left@;
            let ghost n = parent.len() as int;
            proof {
                lemma_left_bound(parent0, none_done(n as nat), j as int, n);
                assert(left0[j as int] <= n);
            }
            parent.push(j);
            assert(parent.len() == n + 1);
            let more: usize = left[j] + 1;
            left.set(j, more);
            proof {
                let p2 = ints(parent@);
                assert(p2 =~= parent0.push(j as int));
                assert forall|k: int| 0 <= k < left.len() implies #[trigger] left@[k] == left_among(
                    p2,
                    none_done((n + 1) as nat),
                    k,
                    n + 1,
                ) by {
                    lemma_left_prefix(
                        parent0,
                        none_done(n as nat),
                        p2,
                        none_done((n + 1) as nat),
                        k,
                        n,
                    );
                    assert(left0[k] == left_among(parent0, none_done(n as nat), k, n));
                }
                assert forall|k: int| 1 <= k <= m + 1 implies 0 <= #[trigger] p2[k] < all.len()
                    && all[k].parent() == Some(all[p2[k]]) by {
                    if k <= m {
                        assert(0 <= parent0[k] < all.len());
                    }
                }
            }
            m = m + 1;
        }
        let n: usize = parent.len();
        let mut ready: Vec<usize> = Vec::new();
        let mut out: Vec<bool> = Vec::new();
        let mut done: Vec<bool> = Vec::new();
        let mut k: usize = 0;
        let ghost p = ints(parent@);
        assert(ints(ready@) =~= leaves(p, 0));
        while k < n
            invariant
                0 <= k <= n,
                n == parent.len(),
                n == left.len(),
                p == ints(parent@),
                forall|x: int|
                    0 <= x < n ==> #[trigger] left@[x] == left_among(p, none_done(n as nat), x, n as int),
                ints(ready@) == leaves(p, k as int),
                out@ == none_done(k as nat),
                done@ == none_done(k as nat),
            decreases n - k,
        {
            if left[k] == 0 {
                let ghost r0 = ints(ready@);
                ready.push(k);
                assert(ints(ready@) =~= r0.push(k as int));
            }
            out.push(false);
            done.push(false);
            k = k + 1;
            assert(out@ =~= none_done(k as nat));
            assert(done@ =~= none_done(k as nat));
        }
        proof {
            lemma_count_open_none(n as nat);
            law_broker_begins(all, p);
        }
        let b = Broker { dirs, parent, left, ready, handed: 0, out, done, open: n };
        proof {
            assert(b@ =~= BrokerView::start(p, depths(all)));
            lemma_removable_from_numbers(plan@.dirs, top, p);
        }
        Some(b)
    }

    /// Hands out the next directory that can be removed, where there is one.
    pub fn take(&mut self) -> (r: Option<usize>)
        requires
            old(self).wf(),
        ensures
            final(self).wf(),
            final(self).names() == old(self).names(),
            final(self)@ == old(self)@.taken(),
            match r {
                Some(t) => old(self)@.handed < old(self)@.ready.len() && t
                    == old(self)@.ready[old(self)@.handed as int],
                None => old(self)@.handed == old(self)@.ready.len(),
            },
    {
        if self.handed == self.ready.len() {
            return None;
        }
        let t: usize = self.ready[self.handed];
        assert(self@.ready[self.handed as int] == t);
        self.handed = self.handed + 1;
        self.out.set(t, true);
        proof {
            assert(self@ =~= old(self)@.taken());
            law_broker_sound(old(self)@, 0);
            assert forall|i: int| 0 <= i < self.out.len() implies #[trigger] self.out@[i]
                == self@.is_out(i) by {
                assert(old(self).out@[i] == old(self)@.is_out(i));
                if old(self)@.is_out(i) {
                    let m = choose|m: int|
                        0 <= m < old(self)@.handed && #[trigger] old(self)@.ready[m] == i;
                    assert(self@.ready[m] == i);
                }
                if i == t {
                    assert(self@.ready[self@.handed - 1] == i);
                }
                if self@.is_out(i) && i != t {
                    let m = choose|m: int| 0 <= m < self@.handed && #[trigger] self@.ready[m] == i;
                    assert(old(self)@.ready[m] == i);
                }
            }
            assert forall|i: int| 0 <= i < self.left.len() implies #[trigger] self.left@[i]
                == self@.left(i) by {
                assert(old(self).left@[i] == old(self)@.left(i));
            }
        }
        Some(t)
    }

    /// Notes that a directory was dealt with, whether it could be removed or not,
    /// and makes the one that it is in ready where that was the last one inside.
    pub fn mark_done(&mut self, dir: usize)
        requires
            old(self).wf(),
        ensures
            final(self).wf(),
            final(self).names() == old(self).names(),
            final(self)@ == old(self)@.marked(dir as int),
    {
        if dir >= self.done.len() || self.done[dir] || !self.out[dir] {
            proof {
                if dir < self.done.len() {
                    assert(self.out@[dir as int] == self@.is_out(dir as int));
                }
            }
            return;
        }
        assert(self.out@[dir as int] == self@.is_out(dir as int));
        let ghost n = self@.parent.len() as int;
        let ghost b0 = self@;
        proof {
            law_broker_sound(b0, dir as int);
            lemma_count_open_mark(self.done@, dir as int);
            lemma_count_open(self.done@.update(dir as int, true));
        }
        self.done.set(dir, true);
        self.open = self.open - 1;
        if dir > 0 {
            let p: usize = self.parent[dir];
            proof {
                assert(0 <= b0.parent[dir as int] < n);
                lemma_left_update(b0.parent, b0.done, dir as int, p as int, n);
                lemma_left_zero(b0.parent, b0.done, p as int, n);
                assert(self.left@[p as int] == b0.left(p as int));
            }
            let fewer: usize = self.left[p] - 1;
            self.left.set(p, fewer);
            if fewer == 0 {
                let ghost r0 = ints(self.ready@);
                self.ready.push(p);
                assert(ints(self.ready@) =~= r0.push(p as int));
            }
        }
        proof {
            let b1 = b0.marked(dir as int);
            assert(self@ =~= b1);
            assert forall|i: int| 0 <= i < self.left.len() implies #[trigger] self.left@[i]
                == self@.left(i) by {
                assert(old(self).left@[i] == b0.left(i));
                if dir > 0 {
                    lemma_left_update(b0.parent, b0.done, dir as int, i, n);
                } else {
                    lemma_left_root(b0.parent, b0.done, i, n);
                }
            }
            assert forall|i: int| 0 <= i < self.out.len() implies #[trigger] self.out@[i]
                == self@.is_out(i) by {
                assert(old(self).out@[i] == b0.is_out(i));
                if b0.is_out(i) {
                    let m = choose|m: int| 0 <= m < b0.handed && #[trigger] b0.ready[m] == i;
                    assert(self@.ready[m] == i);
                }
                if self@.is_out(i) {
                    let m = choose|m: int| 0 <= m < self@.handed && #[trigger] self@.ready[m] == i;
                    assert(b0.ready[m] == i);
                }
            }
        }
    }

    /// Whether everything was dealt with.
    pub fn is_finished(&self) -> (r: bool)
        requires
            self.wf(),
        ensures
            r == self@.finished(),
    {
        proof {
            lemma_count_open(self.done@);
        }
        self.open == 0
    }
}

proof fn lemma_removable_from_numbers(dirs: Seq<PathView>, top: PathView, parent: Seq<int>)
    requires
        numbered(all_dirs(dirs, top), parent),
        all_dirs(dirs, top).no_duplicates(),
    ensures
        removable(dirs, top),
{
    let all = all_dirs(dirs, top);
    assert forall|i: int, j: int| 0 <= i < dirs.len() && 0 <= j < dirs.len() && i != j implies dirs[i]
        != dirs[j] by {
        assert(all[i + 1] != all[j + 1]);
    }
    assert forall|i: int| 0 <= i < dirs.len() implies (#[trigger] dirs[i].parent() matches Some(p)
        && (p == top || dirs.contains(p))) by {
        assert(all[i + 1] == dirs[i]);
        let p = parent[i + 1];
        assert(all[i + 1].parent() == Some(all[p]));
        if p > 0 {
            assert(dirs[p - 1] == all[p]);
        }
    }
}

/// How far removal has got, and what it failed on.
#[derive(Debug, PartialEq, Eq)]
pub struct RemoveProgress {
    pub dirs_done: usize,
    pub files_done: usize,
    /// What failed, in the order in which it did.
    pub failures: Vec<FailedItem>,
}

/// The contents of a [`RemoveProgress`].
#[verifier::ext_equal]
pub struct RemoveProgressView {
    pub dirs_done: usize,
    pub files_done: usize,
    pub failures: Seq<FailedView>,
}

impl View for RemoveProgress {
    type V = RemoveProgressView;

    open spec fn view(&self) -> RemoveProgressView {
        RemoveProgressView {
            dirs_done: self.dirs_done,
            files_done: self.files_done,
            failures: failed_views(self.failures@),
        }
    }
}

impl RemoveProgressView {
    /// Nothing done, nothing failed.
    pub open spec fn empty() -> RemoveProgressView {
        RemoveProgressView { dirs_done: 0, files_done: 0, failures: Seq::empty() }
    }

    /// The progress once one thing was tried. That it is gone already is as good
    /// as removing it.
    pub open spec fn noted(self, step: StepView, fault: Option<(FaultKind, Seq<char>)>) -> Self {
        match fault {
            Some((kind, text)) => if kind == FaultKind::NotFound {
                self.counted(step.is_dir)
            } else {
                RemoveProgressView {
                    failures: self.failures.push(
                        FailedView { path: step.path, error: text, is_dir: step.is_dir },
                    ),
                    ..self
                }
            },
            None => self.counted(step.is_dir),
        }
    }

    /// The progress with one more thing removed.
    pub open spec fn counted(self, is_dir: bool) -> Self {
        if is_dir {
            RemoveProgressView { dirs_done: self.dirs_done.wrapping_add(1), ..self }
        } else {
            RemoveProgressView { files_done: self.files_done.wrapping_add(1), ..self }
        }
    }

    /// The progress once each of `steps` was tried.
    pub open spec fn noted_all(
        self,
        steps: Seq<StepView>,
        faults: Seq<Option<(FaultKind, Seq<char>)>>,
    ) -> Self
        decreases steps.len(),
    {
        if steps.len() == 0 {
            self
        } else {
            self.noted_all(steps.drop_last(), faults.drop_last()).noted(steps.last(), faults.last())
        }
    }
}

impl Default for RemoveProgress {
    fn default() -> (r: Self)
        ensures
            r@ == RemoveProgressView::empty(),
    {
        RemoveProgress::new()
    }
}

impl RemoveProgress {
    pub fn new() -> (r: Self)
        ensures
            r@ == RemoveProgressView::empty(),
    {
        let r = RemoveProgress { dirs_done: 0, files_done: 0, failures: Vec::new() };
        assert(r@ =~= RemoveProgressView::empty());
        r
    }

    fn record(&mut self, item: FailedItem)
        ensures
            final(self)@ == (RemoveProgressView {
                failures: old(self)@.failures.push(item@),
                ..old(self)@
            }),
    {
        self.failures.push(item);
        assert(self@.failures =~= old(self)@.failures.push(item@));
    }

    /// Hands over the failures and forgets them.
    pub fn take_failures(&mut self) -> (r: Vec<FailedItem>)
        ensures
            failed_views(r@) == old(self)@.failures,
            final(self)@ == (RemoveProgressView { failures: Seq::empty(), ..old(self)@ }),
    {
        let mut r: Vec<FailedItem> = Vec::new();
        std::mem::swap(&mut r, &mut self.failures);
        assert(self@.failures =~= Seq::<FailedView>::empty());
        r
    }

    pub fn failure_count(&self) -> (r: usize)
        ensures
            r == self@.failures.len(),
    {
        self.failures.len()
    }

    fn count(&mut self, is_dir: bool)
        ensures
            final(self)@ == old(self)@.counted(is_dir),
    {
        if is_dir {
            self.dirs_done = self.dirs_done.wrapping_add(1);
        } else {
            self.files_done = self.files_done.wrapping_add(1);
        }
    }

    fn note(&mut self, step: &Step, fault: &Option<IoFault>)
        ensures
            final(self)@ == old(self)@.noted(step@, outcome(*fault)),
    {
        match fault {
            Some(f) => {
                if f.kind == FaultKind::NotFound {
                    self.count(step.is_dir);
                } else {
                    self.record(
                        FailedItem {
                            path: step.path.clone(),
                            error: f.text.clone(),
                            is_dir: step.is_dir,
                        },
                    );
                }
            },
            None => {
                self.count(step.is_dir);
            },
        }
    }
}

/// One thing to remove: a directory, or a file or link.
#[derive(Debug, PartialEq, Eq)]
pub struct Step {
    pub path: PathBuf,
    pub is_dir: bool,
}

/// The contents of a [`Step`].
#[verifier::ext_equal]
pub struct StepView {
    pub path: PathView,
    pub is_dir: bool,
}

impl View for Step {
    type V = StepView;

    open spec fn view(&self) -> StepView {
        StepView { path: self.path@, is_dir: self.is_dir }
    }
}

/// The contents of a list of steps.
pub open spec fn step_views(v: Seq<Step>) -> Seq<StepView> {
    Seq::new(v.len(), |i: int| v[i]@)
}

/// The contents of a list of lists of steps.
pub open spec fn steps_views(v: Seq<Vec<Step>>) -> Seq<Seq<StepView>> {
    Seq::new(v.len(), |i: int| step_views(v[i]@))
}

/// The directory that something in the tree is in.
pub open spec fn home(rel: PathView, top: PathView) -> PathView {
    match rel.parent() {
        Some(p) => p,
        None => top,
    }
}

/// Where the files and links of a plan are, files first.
pub open spec fn rels(plan: PlanView) -> Seq<PathView> {
    Seq::new(plan.files.len(), |i: int| plan.files[i].rel) + Seq::new(
        plan.symlinks.len(),
        |i: int| plan.symlinks[i].rel,
    )
}

/// Those of `rels` that are in the directory `d`, to be removed from `root`.
pub open spec fn inside(
    root: PathView,
    rels: Seq<PathView>,
    d: PathView,
    top: PathView,
) -> Seq<StepView>
    decreases rels.len(),
{
    if rels.len() == 0 {
        Seq::empty()
    } else if home(rels.last(), top) == d {
        inside(root, rels.drop_last(), d, top).push(
            StepView { path: root.join(rels.last()), is_dir: false },
        )
    } else {
        inside(root, rels.drop_last(), d, top)
    }
}

/// What it takes to remove the directory `d`: what is in it, then itself.
pub open spec fn steps_for(
    root: PathView,
    plan: PlanView,
    d: PathView,
    top: PathView,
) -> Seq<StepView> {
    inside(root, rels(plan), d, top).push(StepView { path: root.join(d), is_dir: true })
}

/// The removal of a tree in progress.
pub struct Removal {
    broker: Broker,
    steps: Vec<Vec<Step>>,
    progress: RemoveProgress,
}

/// The contents of a [`Removal`].
#[verifier::ext_equal]
pub struct RemovalView {
    pub broker: BrokerView,
    /// Of each directory what it takes to remove it.
    pub steps: Seq<Seq<StepView>>,
    pub progress: RemoveProgressView,
}

impl View for Removal {
    type V = RemovalView;

    closed spec fn view(&self) -> RemovalView {
        RemovalView {
            broker: self.broker@,
            steps: steps_views(self.steps@),
            progress: self.progress@,
        }
    }
}

impl RemovalView {
    /// The state once the removal of a directory was tried. One that was not
    /// handed out, or is dealt with, is ignored.
    pub open spec fn settled(
        self,
        dir: int,
        faults: Seq<Option<(FaultKind, Seq<char>)>>,
    ) -> RemovalView {
        if 0 <= dir < self.steps.len() && self.broker.is_out(dir) && !self.broker.done[dir] {
            RemovalView {
                broker: self.broker.marked(dir),
                progress: self.progress.noted_all(self.steps[dir], faults),
                ..self
            }
        } else {
            self
        }
    }
}

fn sort_in(
    broker: &Broker,
    root: &PathBuf,
    rel: &PathBuf,
    steps: &mut Vec<Vec<Step>>,
    Ghost(before): Ghost<Seq<PathView>>,
    Ghost(top): Ghost<PathView>,
)
    requires
        broker.wf(),
        broker.names().no_duplicates(),
        top == top_of(root@.style),
        old(steps).len() == broker.names().len(),
        forall|i: int|
            0 <= i < old(steps).len() ==> #[trigger] steps_views(old(steps)@)[i] == inside(
                root@,
                before,
                broker.names()[i],
                top,
            ),
    ensures
        final(steps).len() == old(steps).len(),
        forall|i: int|
            0 <= i < final(steps).len() ==> #[trigger] steps_views(final(steps)@)[i] == inside(
                root@,
                before.push(rel@),
                broker.names()[i],
                top,
            ),
{
    let up = match rel.parent() {
        Some(p) => p,
        None => PathBuf::new(root.style),
    };
    assert(up@ == home(rel@, top));
    assert(before.push(rel@).drop_last() =~= before);
    let ghost s0 = steps_views(steps@);
    match broker.dirs.find(&up) {
        Some(k) => {
            let step = Step { path: root.join(rel), is_dir: false };
            steps[k].push(step);
            proof {
                let s1 = steps_views(steps@);
                assert(s1[k as int] =~= s0[k as int].push(step@));
                assert forall|i: int| 0 <= i < steps.len() implies #[trigger] s1[i] == inside(
                    root@,
                    before.push(rel@),
                    broker.names()[i],
                    top,
                ) by {
                    if i != k {
                        assert(s1[i] =~= s0[i]);
                        assert(broker.names()[i] != broker.names()[k as int]);
                    }
                    assert(s0[i] == inside(root@, before, broker.names()[i], top));
                }
            }
        },
        None => {
            assert forall|i: int| 0 <= i < steps.len() implies #[trigger] s0[i] == inside(
                root@,
                before.push(rel@),
                broker.names()[i],
                top,
            ) by {
                assert(broker.names().contains(broker.names()[i]));
            }
        },
    }
}

/// The state in which the removal of a tree begins.
pub open spec fn removal_start(root: PathView, plan: PlanView, parent: Seq<int>) -> RemovalView {
    let all = all_dirs(plan.dirs, top_of(root.style));
    RemovalView {
        broker: BrokerView::start(parent, depths(all)),
        steps: Seq::new(all.len(), |i: int| steps_for(root, plan, all[i], top_of(root.style))),
        progress: RemoveProgressView::empty(),
    }
}

/// Begins to remove what a plan lists below `root`, and `root` itself. The order in
/// which the directories are listed does not matter; nothing can be begun where one is
/// listed twice, or the one that it is in is not.
pub fn remove_tree(root: &PathBuf, plan: &Plan) -> (r: Option<Removal>)
    ensures
        match r {
            Some(x) => {
                let all = all_dirs(plan@.dirs, top_of(root@.style));
                &&& removable(plan@.dirs, top_of(root@.style))
                &&& x.wf()
                &&& numbered(all, x@.broker.parent)
                &&& x@ == removal_start(root@, plan@, x@.broker.parent)
            },
            None => !removable(plan@.dirs, top_of(root@.style)),
        },
{
    let broker = match Broker::new(plan, root.style) {
        Some(b) => b,
        None => {
            return None;
        },
    };
    let ghost top = top_of(root@.style);
    let ghost all = all_dirs(plan@.dirs, top);
    let ghost every = rels(plan@);
    proof {
        lemma_all_distinct(plan@.dirs, top);
    }
    let n: usize = broker.parent.len();
    let mut steps: Vec<Vec<Step>> = Vec::new();
    while steps.len() < n
        invariant
            steps.len() <= n,
            forall|i: int|
                0 <= i < steps.len() ==> #[trigger] steps_views(steps@)[i] == Seq::<StepView>::empty(),
        decreases n - steps.len(),
    {
        let ghost s0 = steps_views(steps@);
        let none: Vec<Step> = Vec::new();
        assert(step_views(none@) =~= Seq::<StepView>::empty());
        steps.push(none);
        assert(steps_views(steps@) =~= s0.push(Seq::<StepView>::empty()));
    }
    let mut i: usize = 0;
    assert(every.take(0) =~= Seq::<PathView>::empty());
    while i < plan.files.len()
        invariant
            0 <= i <= plan.files.len(),
            every == rels(plan@),
            broker.wf(),
            broker.names() == all,
            all.no_duplicates(),
            top == top_of(root@.style),
            steps.len() == all.len(),
            forall|k: int|
                0 <= k < steps.len() ==> #[trigger] steps_views(steps@)[k] == inside(
                    root@,
                    every.take(i as int),
                    all[k],
                    top,
                ),
        decreases plan.files.len() - i,
    {
        assert(plan@.files[i as int].rel == plan.files@[i as int].rel@);
        sort_in(&broker, root, &plan.files[i].rel, &mut steps, Ghost(every.take(i as int)), Ghost(top));
        assert(every.take(i as int).push(every[i as int]) =~= every.take(i + 1));
        i = i + 1;
    }
    let m: usize = plan.files.len();
    let mut j: usize = 0;
    while j < plan.symlinks.len()
        invariant
            0 <= j <= plan.symlinks.len(),
            m == plan.files.len(),
            every == rels(plan@),
            broker.wf(),
            broker.names() == all,
            all.no_duplicates(),
            top == top_of(root@.style),
            steps.len() == all.len(),
            forall|k: int|
                0 <= k < steps.len() ==> #[trigger] steps_views(steps@)[k] == inside(
                    root@,
                    every.take(m + j),
                    all[k],
                    top,
                ),
        decreases plan.symlinks.len() - j,
    {
        assert(plan@.symlinks[j as int].rel == plan.symlinks@[j as int].rel@);
        sort_in(
            &broker,
            root,
            &plan.symlinks[j].rel,
            &mut steps,
            Ghost(every.take(m + j)),
            Ghost(top),
        );
        assert(every.take(m + j).push(every[m + j]) =~= every.take(m + j + 1));
        j = j + 1;
    }
    assert(every.take(m + j) =~= every);
    let mut k: usize = 0;
    while k < n
        invariant
            0 <= k <= n,
            n == all.len(),
            every == rels(plan@),
            broker.wf(),
            broker.names() == all,
            steps.len() == all.len(),
            forall|x: int|
                0 <= x < steps.len() ==> #[trigger] steps_views(steps@)[x] == if x < k {
                    steps_for(root@, plan@, all[x], top)
                } else {
                    inside(root@, every, all[x], top)
                },
        decreases n - k,
    {
        let ghost s0 = steps_views(steps@);
        let step = Step { path: root.join(broker.dirs.get(k)), is_dir: true };
        steps[k].push(step);
        proof {
            let s1 = steps_views(steps@);
            assert(s1[k as int] =~= s0[k as int].push(step@));
            assert forall|x: int| 0 <= x < steps.len() implies #[trigger] s1[x] == if x < k + 1 {
                steps_for(root@, plan@, all[x], top)
            } else {
                inside(root@, every, all[x], top)
            } by {
                if x != k {
                    assert(s1[x] =~= s0[x]);
                }
                assert(s0[x] == if x < k {
                    steps_for(root@, plan@, all[x], top)
                } else {
                    inside(root@, every, all[x], top)
                });
            }
        }
        k = k + 1;
    }
    let r = Removal { broker, steps, progress: RemoveProgress::new() };
    assert(r@.steps =~= Seq::new(
        all.len(),
        |i: int| steps_for(root@, plan@, all[i], top_of(root@.style)),
    ));
    Some(r)
}

pub proof fn lemma_all_distinct(dirs: Seq<PathView>, top: PathView)
    requires
        removable(dirs, top),
        top.parts.len() == 0,
    ensures
        all_dirs(dirs, top).no_duplicates(),
{
    let all = all_dirs(dirs, top);
    assert forall|i: int, j: int| 0 <= i < all.len() && 0 <= j < all.len() && i != j implies all[i]
        != all[j] by {
        if i == 0 {
            assert(dirs[j - 1].parent() is Some);
        } else if j == 0 {
            assert(dirs[i - 1].parent() is Some);
        } else {
            assert(dirs[i - 1] != dirs[j - 1]);
        }
    }
}

impl Removal {
    /// That the books are kept.
    pub closed spec fn wf(&self) -> bool {
        &&& self.broker.wf()
        &&& self.steps.len() == self.broker@.parent.len()
    }

    /// What the books say.
    pub proof fn lemma_wf(&self)
        requires
            self.wf(),
        ensures
            self@.broker.sound(),
            self@.steps.len() == self@.broker.parent.len(),
    {
    }

    /// Hands out the next directory that can be removed, where there is one.
    pub fn take(&mut self) -> (r: Option<usize>)
        requires
            old(self).wf(),
        ensures
            final(self).wf(),
            final(self)@ == (RemovalView { broker: old(self)@.broker.taken(), ..old(self)@ }),
            match r {
                Some(t) => old(self)@.broker.handed < old(self)@.broker.ready.len() && t
                    == old(self)@.broker.ready[old(self)@.broker.handed as int] && t
                    < old(self)@.steps.len(),
                None => old(self)@.broker.handed == old(self)@.broker.ready.len(),
            },
    {
        let r = self.broker.take();
        assert(self@ =~= (RemovalView { broker: old(self)@.broker.taken(), ..old(self)@ }));
        r
    }

    /// What it takes to remove a directory, in order.
    pub fn steps(&self, dir: usize) -> (r: &Vec<Step>)
        requires
            dir < self@.steps.len(),
        ensures
            step_views(r@) == self@.steps[dir as int],
    {
        &self.steps[dir]
    }

    /// Takes back what came of removing a directory, one outcome for each step.
    pub fn settle(&mut self, dir: usize, results: &Vec<Option<IoFault>>)
        requires
            old(self).wf(),
            dir < old(self)@.steps.len(),
            results@.len() == old(self)@.steps[dir as int].len(),
        ensures
            final(self).wf(),
            final(self)@ == old(self)@.settled(dir as int, outcomes(results@)),
    {
        assert(self.broker.out@[dir as int] == self.broker@.is_out(dir as int));
        if !self.broker.out[dir] || self.broker.done[dir] {
            return;
        }
        self.broker.mark_done(dir);
        let ghost marked = self.broker;
        let ghost steps = step_views(self.steps@[dir as int]@);
        let ghost faults = outcomes(results@);
        let mut i: usize = 0;
        assert(steps.take(0) =~= Seq::<StepView>::empty());
        while i < results.len()
            invariant
                0 <= i <= results.len(),
                self.broker == marked,
                self.steps == old(self).steps,
                dir < self.steps.len(),
                results@.len() == steps.len(),
                steps == step_views(self.steps@[dir as int]@),
                faults == outcomes(results@),
                self.progress@ == old(self).progress@.noted_all(
                    steps.take(i as int),
                    faults.take(i as int),
                ),
            decreases results.len() - i,
        {
            assert(steps.take(i + 1).drop_last() =~= steps.take(i as int));
            assert(faults.take(i + 1).drop_last() =~= faults.take(i as int));
            self.progress.note(&self.steps[dir][i], &results[i]);
            i = i + 1;
        }
        assert(steps.take(i as int) =~= steps);
        assert(faults.take(i as int) =~= faults);
        assert(self@ =~= old(self)@.settled(dir as int, faults));
    }

    /// Whether everything was dealt with.
    pub fn is_finished(&self) -> (r: bool)
        requires
            self.wf(),
        ensures
            r == self@.broker.finished(),
    {
        self.broker.is_finished()
    }

    /// How far removal has got, and what it failed on.
    pub fn into_progress(self) -> (r: RemoveProgress)
        ensures
            r@ == self@.progress,
    {
        self.progress
    }
}

proof fn lemma_inside(root: PathView, rels: Seq<PathView>, d: PathView, top: PathView, x: PathView)
    requires
        rels.contains(x),
        home(x, top) == d,
    ensures
        inside(root, rels, d, top).contains(StepView { path: root.join(x), is_dir: false }),
    decreases rels.len(),
{
    let step = StepView { path: root.join(x), is_dir: false };
    let r = inside(root, rels, d, top);
    if rels.last() == x {
        assert(r.last() == step);
        assert(r[r.len() - 1] == step);
    } else {
        let k = choose|k: int| 0 <= k < rels.len() && rels[k] == x;
        assert(rels.drop_last()[k] == x);
        lemma_inside(root, rels.drop_last(), d, top, x);
        let a = inside(root, rels.drop_last(), d, top);
        let i = choose|i: int| 0 <= i < a.len() && a[i] == step;
        assert(r[i] == step);
    }
}

/// Every file and link of a plan is removed with the directory that it is in.
pub proof fn law_removes_everything(root: PathView, plan: PlanView, top: PathView, x: PathView)
    requires
        rels(plan).contains(x),
        all_dirs(plan.dirs, top).contains(home(x, top)),
    ensures
        exists|i: int|
            0 <= i < all_dirs(plan.dirs, top).len() && (#[trigger] steps_for(
                root,
                plan,
                all_dirs(plan.dirs, top)[i],
                top,
            )).contains(StepView { path: root.join(x), is_dir: false }),
{
    let all = all_dirs(plan.dirs, top);
    let i = choose|i: int| 0 <= i < all.len() && all[i] == home(x, top);
    let step = StepView { path: root.join(x), is_dir: false };
    lemma_inside(root, rels(plan), all[i], top, x);
    let a = inside(root, rels(plan), all[i], top);
    let k = choose|k: int| 0 <= k < a.len() && a[k] == step;
    assert(steps_for(root, plan, all[i], top)[k] == step);
}

/// Whether an outcome leaves nothing behind.
pub open spec fn is_gone(fault: Option<(FaultKind, Seq<char>)>) -> bool {
    match fault {
        Some((kind, _)) => kind == FaultKind::NotFound,
        None => true,
    }
}

/// A directory adds no failure just if all that it takes to remove it is gone.
pub proof fn law_failures_tell(
    p: RemoveProgressView,
    steps: Seq<StepView>,
    faults: Seq<Option<(FaultKind, Seq<char>)>>,
)
    requires
        steps.len() == faults.len(),
    ensures
        p.noted_all(steps, faults).failures.len() >= p.failures.len(),
        p.noted_all(steps, faults).failures.len() == p.failures.len() <==> (forall|i: int|
            0 <= i < faults.len() ==> is_gone(#[trigger] faults[i])),
    decreases steps.len(),
{
    if steps.len() > 0 {
        let rest = faults.drop_last();
        law_failures_tell(p, steps.drop_last(), rest);
        let q = p.noted_all(steps.drop_last(), rest);
        assert(p.noted_all(steps, faults) == q.noted(steps.last(), faults.last()));
        if forall|i: int| 0 <= i < faults.len() ==> is_gone(#[trigger] faults[i]) {
            assert(is_gone(faults[faults.len() - 1]));
            assert forall|i: int| 0 <= i < rest.len() implies is_gone(#[trigger] rest[i]) by {
                assert(is_gone(faults[i]));
            }
        }
        if p.noted_all(steps, faults).failures.len() == p.failures.len() {
            assert forall|i: int| 0 <= i < faults.len() implies is_gone(#[trigger] faults[i]) by {
                if i < rest.len() {
                    assert(is_gone(rest[i]));
                }
            }
        }
    }
}

/// The directories that are gone with all in them, once the removal of one was
/// tried, when `gone` were before.
pub open spec fn gone_after(
    gone: Set<int>,
    dir: int,
    faults: Seq<Option<(FaultKind, Seq<char>)>>,
) -> Set<int> {
    if forall|i: int| 0 <= i < faults.len() ==> is_gone(#[trigger] faults[i]) {
        gone.insert(dir)
    } else {
        gone
    }
}

/// Whether, unless something failed, all that was dealt with is gone.
pub open spec fn all_gone(r: RemovalView, gone: Set<int>) -> bool {
    r.progress.failures.len() == 0 ==> forall|i: int|
        0 <= i < r.broker.done.len() && r.broker.done[i] ==> #[trigger] gone.contains(i)
}

/// As long as there is no failure, every directory that was dealt with is gone with
/// all in it.
pub proof fn law_removal_clears(
    r: RemovalView,
    gone: Set<int>,
    dir: int,
    faults: Seq<Option<(FaultKind, Seq<char>)>>,
)
    requires
        all_gone(r, gone),
        0 <= dir < r.steps.len() ==> faults.len() == r.steps[dir].len(),
    ensures
        all_gone(r.settled(dir, faults), gone_after(gone, dir, faults)),
        r.settled(dir, faults).progress.failures.len() >= r.progress.failures.len(),
{
    if 0 <= dir < r.steps.len() && r.broker.is_out(dir) && !r.broker.done[dir] {
        law_failures_tell(r.progress, r.steps[dir], faults);
        let next = r.settled(dir, faults);
        let after = gone_after(gone, dir, faults);
        if next.progress.failures.len() == 0 {
            assert forall|i: int|
                0 <= i < next.broker.done.len() && next.broker.done[i] implies #[trigger] after.contains(
                i,
            ) by {
                if i != dir {
                    assert(gone.contains(i));
                }
            }
        }
    }
}

/// A removal that is finished without a failure has removed every directory with all
/// in it.
pub proof fn law_removal_complete(r: RemovalView, gone: Set<int>)
    requires
        all_gone(r, gone),
        r.broker.finished(),
        r.progress.failures.len() == 0,
    ensures
        forall|i: int| 0 <= i < r.broker.done.len() ==> #[trigger] gone.contains(i),
{
}

/// What is tried to be removed counts as removed where it is gone, by that or before, as
/// the directory or the file that it is; and else as a failure, with its place and why.
pub proof fn law_removal_is_noted(
    p: RemoveProgressView,
    step: StepView,
    fault: Option<(FaultKind, Seq<char>)>,
)
    ensures
        ({
            let q = p.noted(step, fault);
            let gone = fault is None || (fault->0).0 == FaultKind::NotFound;
            &&& gone ==> q.failures == p.failures
            &&& gone && step.is_dir ==> q.files_done == p.files_done && (p.dirs_done < usize::MAX
                ==> q.dirs_done == p.dirs_done + 1)
            &&& gone && !step.is_dir ==> q.dirs_done == p.dirs_done && (p.files_done < usize::MAX
                ==> q.files_done == p.files_done + 1)
            &&& !gone ==> q.dirs_done == p.dirs_done && q.files_done == p.files_done && q.failures
                == p.failures.push(
                FailedView { path: step.path, error: (fault->0).1, is_dir: step.is_dir },
            )
        }),
{
}

} // verus!
