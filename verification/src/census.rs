//! That scans of one tree agree, in whatever order its directories are read, and that
//! what they list can be copied and removed.

use vstd::prelude::*;

use crate::clearing::well_listed;
use crate::copy::CopyView;
use crate::copy::ProgressView;
use crate::order::rearranged;
use crate::order::reordered;
use crate::order::sum_of;
use crate::path::is_name;
use crate::path::PathView;
use crate::plan::file_size;
use crate::plan::ordered;
use crate::plan::sum_sizes;
use crate::plan::FileView;
use crate::plan::FoundView;
use crate::plan::PlanView;
use crate::plan::ScanView;
use crate::plan::SymlinkView;
use crate::platform::EntryKind;
use crate::remove::all_dirs;
use crate::remove::home;
use crate::remove::rels;
use crate::remove::top_of;
use crate::replica::all_rels;
use crate::replica::asunder;
use crate::replica::contents;
use crate::replica::copies_names;
use crate::replica::copies_on;
use crate::replica::leads_down;
use crate::replica::tells;
use crate::survey::covers;
use crate::survey::dir_in;
use crate::survey::file_in;
use crate::survey::has_entry;
use crate::survey::holds_all;
use crate::survey::holds_only;
use crate::survey::names_differ;
use crate::survey::scan_of;
use crate::survey::symlink_in;
use crate::survey::Tree;
use crate::world::lists;
use crate::world::Disk;
use crate::world::Node;

verus! {

/// Whether `next` is how far a scan of the tree may have got one step behind `s`: a
/// directory was handed out, or what is in one came back.
pub open spec fn scans_on(s: ScanView, tree: Tree, next: ScanView) -> bool {
    ||| next == s.taken()
    ||| exists|t: int| s.owed(t) && next == #[trigger] s.absorbed(t, tree(s.rel(t)))
}

/// Whether these are the states of a scan of the tree below `root` from its beginning
/// to its end.
pub open spec fn is_scan(states: Seq<ScanView>, root: PathView, tree: Tree) -> bool {
    &&& states.len() > 0
    &&& states[0] == ScanView::start(root)
    &&& forall|i: int|
        #![trigger states[i]]
        0 <= i < states.len() - 1 ==> scans_on(states[i], tree, states[i + 1])
    &&& states.last().done()
}

/// All that `f` gives for each of `h`, one after the other.
spec fn flat<T>(h: Seq<PathView>, f: spec_fn(PathView) -> Seq<T>) -> Seq<T>
    decreases h.len(),
{
    if h.len() == 0 {
        Seq::empty()
    } else {
        flat(h.drop_last(), f) + f(h.last())
    }
}

proof fn lemma_flat_remove<T>(h: Seq<PathView>, f: spec_fn(PathView) -> Seq<T>, k: int)
    requires
        0 <= k < h.len(),
    ensures
        flat(h, f).to_multiset() == flat(h.remove(k), f).to_multiset().add(
            f(h[k]).to_multiset(),
        ),
    decreases h.len(),
{
    let last = h.len() - 1;
    let rest = h.drop_last();
    vstd::seq_lib::lemma_multiset_commutative(flat(rest, f), f(h.last()));
    if k == last {
        assert(h.remove(k) =~= rest);
    } else {
        lemma_flat_remove(rest, f, k);
        let r = h.remove(k);
        assert(r.drop_last() =~= rest.remove(k));
        assert(r.last() == h.last());
        vstd::seq_lib::lemma_multiset_commutative(flat(r.drop_last(), f), f(r.last()));
    }
    assert(flat(h, f).to_multiset() =~= flat(h.remove(k), f).to_multiset().add(
        f(h[k]).to_multiset(),
    ));
}

proof fn lemma_flat_same<T>(a: Seq<PathView>, b: Seq<PathView>, f: spec_fn(PathView) -> Seq<T>)
    requires
        a.no_duplicates(),
        b.no_duplicates(),
        forall|x: PathView| a.contains(x) <==> b.contains(x),
    ensures
        flat(a, f).to_multiset() == flat(b, f).to_multiset(),
    decreases a.len(),
{
    if a.len() == 0 {
        if b.len() > 0 {
            assert(b.contains(b[0]));
            assert(a.contains(b[0]));
        }
        assert(a =~= b);
    } else {
        let last = a.len() - 1;
        let x = a[last];
        assert(a.contains(x));
        let k = choose|k: int| 0 <= k < b.len() && b[k] == x;
        let c = a.remove(last);
        let d = b.remove(k);
        assert forall|y: PathView| c.contains(y) <==> d.contains(y) by {
            lemma_removed(a, last, y);
            lemma_removed(b, k, y);
        }
        lemma_removed_differ(a, last);
        lemma_removed_differ(b, k);
        lemma_flat_same(c, d, f);
        lemma_flat_remove(a, f, last);
        lemma_flat_remove(b, f, k);
    }
}

proof fn lemma_removed(a: Seq<PathView>, k: int, y: PathView)
    requires
        0 <= k < a.len(),
        a.no_duplicates(),
    ensures
        a.remove(k).contains(y) <==> a.contains(y) && y != a[k],
{
    let c = a.remove(k);
    if c.contains(y) {
        let i = choose|i: int| 0 <= i < c.len() && c[i] == y;
        if i < k {
            assert(a[i] == y);
        } else {
            assert(a[i + 1] == y);
        }
    }
    if a.contains(y) && y != a[k] {
        let i = choose|i: int| 0 <= i < a.len() && a[i] == y;
        if i < k {
            assert(c[i] == y);
        } else {
            assert(c[i - 1] == y);
        }
    }
}

proof fn lemma_removed_differ(a: Seq<PathView>, k: int)
    requires
        0 <= k < a.len(),
        a.no_duplicates(),
    ensures
        a.remove(k).no_duplicates(),
{
    let c = a.remove(k);
    assert forall|i: int, j: int| 0 <= i < c.len() && 0 <= j < c.len() && i != j implies c[i]
        != c[j] by {
        let x = if i < k {
            i
        } else {
            i + 1
        };
        let y = if j < k {
            j
        } else {
            j + 1
        };
        assert(c[i] == a[x] && c[j] == a[y]);
    }
}

proof fn lemma_flat_contains<T>(h: Seq<PathView>, f: spec_fn(PathView) -> Seq<T>, x: T) -> (d:
    PathView)
    requires
        flat(h, f).contains(x),
    ensures
        h.contains(d),
        f(d).contains(x),
    decreases h.len(),
{
    let all = flat(h, f);
    let k = choose|k: int| 0 <= k < all.len() && all[k] == x;
    let rest = flat(h.drop_last(), f);
    if k < rest.len() {
        assert(rest[k] == x);
        assert(rest.contains(x));
        let d = lemma_flat_contains(h.drop_last(), f, x);
        let i = choose|i: int| 0 <= i < h.drop_last().len() && h.drop_last()[i] == d;
        assert(h[i] == d);
        d
    } else {
        assert(f(h.last())[k - rest.len()] == x);
        assert(h[h.len() - 1] == h.last());
        h.last()
    }
}

proof fn lemma_flat_differs<T>(
    h: Seq<PathView>,
    f: spec_fn(PathView) -> Seq<T>,
    owner: spec_fn(T) -> PathView,
)
    requires
        h.no_duplicates(),
        forall|d: PathView| #[trigger] h.contains(d) ==> f(d).no_duplicates(),
        forall|d: PathView, x: T| #[trigger] f(d).contains(x) ==> owner(x) == d,
    ensures
        flat(h, f).no_duplicates(),
    decreases h.len(),
{
    if h.len() > 0 {
        let less = h.drop_last();
        assert forall|d: PathView| #[trigger] less.contains(d) implies f(d).no_duplicates() by {
            let i = choose|i: int| 0 <= i < less.len() && less[i] == d;
            assert(h[i] == d);
            assert(h.contains(d));
        }
        lemma_flat_differs(less, f, owner);
        let all = flat(h, f);
        let rest = flat(less, f);
        let new = f(h.last());
        assert(h[h.len() - 1] == h.last());
        assert(h.contains(h.last()));
        assert forall|i: int, j: int| 0 <= i < j < all.len() implies all[i] != all[j] by {
            if j < rest.len() {
                assert(rest[i] != rest[j]);
            } else if i >= rest.len() {
                assert(new[i - rest.len()] != new[j - rest.len()]);
            } else {
                let y = new[j - rest.len()];
                assert(new.contains(y));
                assert(rest.contains(rest[i]));
                let d = lemma_flat_contains(less, f, rest[i]);
                let k = choose|k: int| 0 <= k < less.len() && less[k] == d;
                assert(h[k] != h[h.len() - 1]);
                assert(f(d).contains(rest[i]));
                assert(owner(rest[i]) == d);
                assert(owner(y) == h.last());
            }
        }
    }
}

/// What reading one directory of the tree adds to a plan.
spec fn share(tree: Tree, d: PathView) -> PlanView {
    match tree(d) {
        Ok(fs) => PlanView::empty().with_all(d, fs),
        Err(e) => if d.parts.len() == 0 {
            PlanView::empty()
        } else {
            PlanView { unreadable: seq![(d, e.text)], ..PlanView::empty() }
        },
    }
}

spec fn files_of(tree: Tree) -> spec_fn(PathView) -> Seq<FileView> {
    |d: PathView| share(tree, d).files
}

spec fn symlinks_of(tree: Tree) -> spec_fn(PathView) -> Seq<SymlinkView> {
    |d: PathView| share(tree, d).symlinks
}

spec fn unreadable_of(tree: Tree) -> spec_fn(PathView) -> Seq<(PathView, Seq<char>)> {
    |d: PathView| share(tree, d).unreadable
}

proof fn lemma_with_all_adds(q: PlanView, d: PathView, fs: Seq<FoundView>)
    ensures
        ({
            let new = PlanView::empty().with_all(d, fs);
            let all = q.with_all(d, fs);
            &&& all.files == q.files + new.files
            &&& all.symlinks == q.symlinks + new.symlinks
            &&& all.unreadable == q.unreadable + new.unreadable
        }),
    decreases fs.len(),
{
    let new = PlanView::empty().with_all(d, fs);
    let all = q.with_all(d, fs);
    if fs.len() > 0 {
        lemma_with_all_adds(q, d, fs.drop_last());
    }
    assert(all.files =~= q.files + new.files);
    assert(all.symlinks =~= q.symlinks + new.symlinks);
    assert(all.unreadable =~= q.unreadable + new.unreadable);
}

spec fn back(s: ScanView, p: int) -> bool {
    0 <= p < s.open.len() && !s.open[p]
}

/// The directories with these tickets.
spec fn places(s: ScanView, h: Seq<int>) -> Seq<PathView> {
    Seq::new(h.len(), |i: int| s.rel(h[i]))
}

/// That the tickets in `h` came back in this order, and the plan is what they gave.
spec fn heard(s: ScanView, tree: Tree, h: Seq<int>) -> bool {
    &&& s.open.len() <= s.tickets()
    &&& h.no_duplicates()
    &&& forall|p: int| #[trigger] h.contains(p) <==> back(s, p)
    &&& s.plan.files == flat(places(s, h), files_of(tree))
    &&& s.plan.symlinks == flat(places(s, h), symlinks_of(tree))
    &&& s.plan.unreadable == flat(places(s, h), unreadable_of(tree))
    &&& s.failed == if back(s, 0) && tree(s.top()) is Err {
        Some(
            crate::error::ErrorView::Io {
                path: Some(s.root.closed_off()),
                source: tree(s.top())->Err_0,
            },
        )
    } else {
        None
    }
    &&& forall|k: int| 0 <= k < s.plan.dirs.len() ==> (#[trigger] s.plan.dirs[k]).parts.len() > 0
}

proof fn lemma_dirs_grow(q: PlanView, d: PathView, fs: Seq<FoundView>)
    ensures
        q.dirs.len() <= q.with_all(d, fs).dirs.len(),
        forall|k: int|
            0 <= k < q.dirs.len() ==> #[trigger] q.with_all(d, fs).dirs[k] == q.dirs[k],
        forall|k: int|
            q.dirs.len() <= k < q.with_all(d, fs).dirs.len() ==> (#[trigger] q.with_all(
                d,
                fs,
            ).dirs[k]).parts.len() > 0,
    decreases fs.len(),
{
    if fs.len() > 0 {
        lemma_dirs_grow(q, d, fs.drop_last());
    }
}

proof fn lemma_hears(s: ScanView, tree: Tree, next: ScanView, h: Seq<int>) -> (g: Seq<int>)
    requires
        heard(s, tree, h),
        scans_on(s, tree, next),
    ensures
        heard(next, tree, g),
        next.root == s.root,
{
    if next == s.taken() {
        assert forall|p: int| #[trigger] h.contains(p) <==> back(next, p) by {}
        assert(places(next, h) =~= places(s, h));
        h
    } else {
        let t = choose|t: int| s.owed(t) && next == #[trigger] s.absorbed(t, tree(s.rel(t)));
        let d = s.rel(t);
        let g = h.push(t);
        assert(!back(s, t));
        assert(!h.contains(t));
        assert forall|p: int| #[trigger] g.contains(p) <==> back(next, p) by {
            if h.contains(p) {
                let i = choose|i: int| 0 <= i < h.len() && h[i] == p;
                assert(g[i] == p);
            }
            if g.contains(p) && p != t {
                let i = choose|i: int| 0 <= i < g.len() && g[i] == p;
                assert(h[i] == p);
            }
            assert(g[h.len() as int] == t);
        }
        assert(g.no_duplicates()) by {
            assert forall|i: int, j: int| 0 <= i < g.len() && 0 <= j < g.len() && i != j implies g[i]
                != g[j] by {
                if i < h.len() {
                    assert(h.contains(h[i]));
                }
                if j < h.len() {
                    assert(h.contains(h[j]));
                }
            }
        }
        if let Ok(fs) = tree(d) {
            lemma_dirs_grow(s.plan, d, fs);
            lemma_with_all_adds(s.plan, d, fs);
        }
        assert(next.plan.dirs.len() >= s.plan.dirs.len());
        assert forall|i: int| 0 <= i < h.len() implies next.rel(#[trigger] h[i]) == s.rel(h[i]) by {
            assert(h.contains(h[i]));
            assert(back(s, h[i]));
        }
        assert(next.rel(t) == d);
        assert(places(next, g) =~= places(s, h).push(d));
        assert(places(next, g).drop_last() =~= places(s, h));
        assert(t > 0 ==> d.parts.len() > 0);
        assert(next.plan.files =~= s.plan.files + share(tree, d).files);
        assert(next.plan.symlinks =~= s.plan.symlinks + share(tree, d).symlinks);
        assert(next.plan.unreadable =~= s.plan.unreadable + share(tree, d).unreadable);
        assert(back(next, 0) <==> back(s, 0) || t == 0);
        g
    }
}

proof fn lemma_scanned(states: Seq<ScanView>, root: PathView, tree: Tree, n: int) -> (h: Seq<int>)
    requires
        0 <= n < states.len(),
        states[0] == ScanView::start(root),
        forall|i: int|
            #![trigger states[i]]
            0 <= i < states.len() - 1 ==> scans_on(states[i], tree, states[i + 1]),
    ensures
        heard(states[n], tree, h),
        scan_of(states[n], tree),
        states[n].root == root,
    decreases n,
{
    if n == 0 {
        let h = Seq::<int>::empty();
        crate::survey::law_scan_begins(root, tree);
        assert(places(states[0], h) =~= Seq::<PathView>::empty());
        h
    } else {
        let h = lemma_scanned(states, root, tree, n - 1);
        let s = states[n - 1];
        let next = states[n];
        assert(scans_on(states[n - 1], tree, states[n - 1 + 1]));
        if next == s.taken() {
            crate::survey::law_scan_takes(s, tree);
        } else {
            let t = choose|t: int| s.owed(t) && next == #[trigger] s.absorbed(t, tree(s.rel(t)));
            crate::survey::law_scan_absorbs(s, tree, t);
        }
        lemma_hears(s, tree, next, h)
    }
}

/// What a plan covers is reached by every other plan of the tree.
proof fn lemma_covers_same(p: PlanView, q: PlanView, top: PathView, tree: Tree, d: PathView)
    requires
        holds_only(p, top, tree),
        holds_all(q, top, tree),
        covers(p, top, d),
    ensures
        covers(q, top, d),
    decreases d.parts.len(),
{
    if d != top {
        assert(p.dirs.contains(d));
        let (e, f) = choose|e: PathView, f: FoundView|
            covers(p, top, e) && #[trigger] dir_in(tree, e, f, d);
        assert(d.parts.len() == e.parts.len() + 1);
        lemma_covers_same(p, q, top, tree, e);
        let fs = tree(e)->Ok_0;
        let j = choose|j: int| 0 <= j < fs.len() && fs[j] == f;
        assert(has_entry(q, e, fs[j]));
    }
}

proof fn lemma_places(s: ScanView, tree: Tree, h: Seq<int>, p: PlanView)
    requires
        heard(s, tree, h),
        scan_of(s, tree),
        names_differ(tree),
        s.done(),
        ordered(p, s.plan),
    ensures
        places(s, h).no_duplicates(),
        forall|d: PathView| #[trigger] places(s, h).contains(d) <==> covers(p, s.top(), d),
        s.plan.dirs.no_duplicates(),
{
    crate::survey::law_scan_dirs_differ(s, tree);
    crate::survey::law_by_depth(s.plan.dirs);
    let at = places(s, h);
    assert forall|i: int, j: int| 0 <= i < at.len() && 0 <= j < at.len() && i != j implies at[i]
        != at[j] by {
        assert(h.contains(h[i]) && h.contains(h[j]));
        assert(h[i] != h[j]);
        assert(back(s, h[i]) && back(s, h[j]));
        if h[i] > 0 && h[j] > 0 {
            assert(s.plan.dirs[h[i] - 1] != s.plan.dirs[h[j] - 1]);
        } else if h[i] > 0 {
            assert(s.plan.dirs[h[i] - 1].parts.len() > 0);
        } else {
            assert(s.plan.dirs[h[j] - 1].parts.len() > 0);
        }
    }
    assert forall|d: PathView| #[trigger] at.contains(d) <==> covers(p, s.top(), d) by {
        if at.contains(d) {
            let i = choose|i: int| 0 <= i < at.len() && at[i] == d;
            assert(h.contains(h[i]));
            assert(back(s, h[i]));
            if h[i] > 0 {
                assert(s.plan.dirs[h[i] - 1] == d);
                assert(s.plan.dirs.contains(d));
            }
        }
        if covers(p, s.top(), d) {
            let t = if d == s.top() {
                0
            } else {
                assert(s.plan.dirs.contains(d));
                let k = choose|k: int| 0 <= k < s.plan.dirs.len() && s.plan.dirs[k] == d;
                k + 1
            };
            assert(back(s, t));
            assert(h.contains(t));
            let i = choose|i: int| 0 <= i < h.len() && h[i] == t;
            assert(at[i] == d);
        }
    }
}

pub proof fn lemma_same_elements<T>(a: Seq<T>, b: Seq<T>)
    requires
        a.no_duplicates(),
        b.no_duplicates(),
        forall|x: T| a.contains(x) <==> b.contains(x),
    ensures
        a.to_multiset() == b.to_multiset(),
{
    a.lemma_multiset_has_no_duplicates();
    b.lemma_multiset_has_no_duplicates();
    a.to_multiset_ensures();
    b.to_multiset_ensures();
    assert forall|x: T| a.to_multiset().count(x) == b.to_multiset().count(x) by {
        assert(a.contains(x) <==> a.to_multiset().count(x) > 0);
        assert(b.contains(x) <==> b.to_multiset().count(x) > 0);
    }
    assert(a.to_multiset() =~= b.to_multiset());
}

proof fn lemma_rearranged_multiset<T>(new: Seq<T>, old: Seq<T>)
    requires
        rearranged(new, old),
        old.no_duplicates(),
    ensures
        new.no_duplicates(),
        new.to_multiset() == old.to_multiset(),
{
    let p = choose|p: Seq<int>| reordered(new, old, p);
    assert forall|i: int, j: int| 0 <= i < new.len() && 0 <= j < new.len() && i != j implies new[i]
        != new[j] by {
        assert(p[i] != p[j]);
        assert(new[i] == old[p[i]]);
        assert(new[j] == old[p[j]]);
    }
    assert forall|x: T| new.contains(x) <==> old.contains(x) by {
        crate::order::lemma_rearranged_contains(new, old, x);
    }
    lemma_same_elements(new, old);
}

pub proof fn lemma_same_sum<T>(a: Seq<T>, b: Seq<T>, f: spec_fn(T) -> nat)
    requires
        a.to_multiset() == b.to_multiset(),
    ensures
        sum_of(a, f) == sum_of(b, f),
    decreases a.len(),
{
    a.to_multiset_ensures();
    b.to_multiset_ensures();
    if a.len() == 0 {
        assert(b.len() == 0);
        assert(a =~= b);
    } else {
        let x = a.last();
        assert(a[a.len() - 1] == x);
        assert(a.contains(x));
        assert(a.to_multiset().count(x) > 0);
        assert(b.contains(x));
        let k = choose|k: int| 0 <= k < b.len() && b[k] == x;
        let c = a.remove(a.len() - 1);
        assert(c =~= a.drop_last());
        lemma_same_sum(c, b.remove(k), f);
        lemma_sum_remove(b, f, k);
    }
}

proof fn lemma_sum_remove<T>(a: Seq<T>, f: spec_fn(T) -> nat, k: int)
    requires
        0 <= k < a.len(),
    ensures
        sum_of(a, f) == sum_of(a.remove(k), f) + f(a[k]),
    decreases a.len(),
{
    if k == a.len() - 1 {
        assert(a.remove(k) =~= a.drop_last());
    } else {
        lemma_sum_remove(a.drop_last(), f, k);
        assert(a.remove(k).drop_last() =~= a.drop_last().remove(k));
        assert(a.remove(k).last() == a.last());
    }
}

/// Where the files of a directory are.
proof fn lemma_share_files(tree: Tree, d: PathView, fs: Seq<FoundView>)
    requires
        forall|i: int, j: int|
            0 <= i < j < fs.len() ==> (#[trigger] fs[i]).info.name != (#[trigger] fs[j]).info.name,
    ensures
        ({
            let new = PlanView::empty().with_all(d, fs);
            &&& new.files.no_duplicates()
            &&& new.symlinks.no_duplicates()
            &&& forall|x: FileView| #[trigger]
                new.files.contains(x) ==> exists|j: int|
                    0 <= j < fs.len() && x.rel == d.child((#[trigger] fs[j]).info.name)
            &&& forall|x: SymlinkView| #[trigger]
                new.symlinks.contains(x) ==> exists|j: int|
                    0 <= j < fs.len() && x.rel == d.child((#[trigger] fs[j]).info.name)
        }),
    decreases fs.len(),
{
    if fs.len() > 0 {
        let less = fs.drop_last();
        assert forall|i: int, j: int| 0 <= i < j < less.len() implies (
        #[trigger] less[i]).info.name != (#[trigger] less[j]).info.name by {
            assert(fs[i].info.name != fs[j].info.name);
        }
        lemma_share_files(tree, d, less);
        let old = PlanView::empty().with_all(d, less);
        let new = PlanView::empty().with_all(d, fs);
        let f = fs.last();
        let at = d.child(f.info.name);
        let last = fs.len() - 1;
        assert(fs[last] == f);
        assert forall|x: FileView| #[trigger] old.files.contains(x) implies x.rel != at && exists|
            j: int,
        |
            0 <= j < fs.len() && x.rel == d.child((#[trigger] fs[j]).info.name) by {
            let j = choose|j: int|
                0 <= j < less.len() && x.rel == d.child((#[trigger] less[j]).info.name);
            assert(less[j] == fs[j]);
            assert(fs[j].info.name != fs[last].info.name);
            assert(d.child(fs[j].info.name).parts.last() == fs[j].info.name);
            assert(at.parts.last() == f.info.name);
        }
        assert forall|x: SymlinkView| #[trigger] old.symlinks.contains(x) implies x.rel != at
            && exists|j: int|
            0 <= j < fs.len() && x.rel == d.child((#[trigger] fs[j]).info.name) by {
            let j = choose|j: int|
                0 <= j < less.len() && x.rel == d.child((#[trigger] less[j]).info.name);
            assert(less[j] == fs[j]);
            assert(fs[j].info.name != fs[last].info.name);
            assert(d.child(fs[j].info.name).parts.last() == fs[j].info.name);
            assert(at.parts.last() == f.info.name);
        }
        assert forall|i: int, j: int| 0 <= i < j < new.files.len() implies new.files[i]
            != new.files[j] by {
            assert(old.files.contains(old.files[i]));
            if j < old.files.len() {
                assert(old.files[i] != old.files[j]);
            }
        }
        assert forall|i: int, j: int| 0 <= i < j < new.symlinks.len() implies new.symlinks[i]
            != new.symlinks[j] by {
            assert(old.symlinks.contains(old.symlinks[i]));
            if j < old.symlinks.len() {
                assert(old.symlinks[i] != old.symlinks[j]);
            }
        }
        assert forall|x: FileView| #[trigger] new.files.contains(x) implies exists|j: int|
            0 <= j < fs.len() && x.rel == d.child((#[trigger] fs[j]).info.name) by {
            let k = choose|k: int| 0 <= k < new.files.len() && new.files[k] == x;
            if k < old.files.len() {
                assert(old.files[k] == x);
                assert(old.files.contains(x));
            } else {
                assert(x.rel == d.child(fs[last].info.name));
            }
        }
        assert forall|x: SymlinkView| #[trigger] new.symlinks.contains(x) implies exists|j: int|
            0 <= j < fs.len() && x.rel == d.child((#[trigger] fs[j]).info.name) by {
            let k = choose|k: int| 0 <= k < new.symlinks.len() && new.symlinks[k] == x;
            if k < old.symlinks.len() {
                assert(old.symlinks[k] == x);
                assert(old.symlinks.contains(x));
            } else {
                assert(x.rel == d.child(fs[last].info.name));
            }
        }
    }
}

/// The directory that something is in.
pub open spec fn above(x: PathView) -> PathView {
    PathView { parts: x.parts.drop_last(), ..x }
}

proof fn lemma_lists_differ(s: ScanView, tree: Tree, h: Seq<int>, p: PlanView)
    requires
        heard(s, tree, h),
        scan_of(s, tree),
        names_differ(tree),
        s.done(),
        ordered(p, s.plan),
    ensures
        s.plan.files.no_duplicates(),
        s.plan.symlinks.no_duplicates(),
{
    lemma_places(s, tree, h, p);
    let at = places(s, h);
    assert forall|d: PathView|
        (#[trigger] files_of(tree)(d)).no_duplicates() && symlinks_of(tree)(d).no_duplicates()
            && (forall|x: FileView| #[trigger] files_of(tree)(d).contains(x) ==> above(x.rel) == d)
            && (forall|x: SymlinkView| #[trigger]
            symlinks_of(tree)(d).contains(x) ==> above(x.rel) == d) by {
        if let Ok(fs) = tree(d) {
            lemma_share_files(tree, d, fs);
            assert forall|n: Seq<u8>| above(#[trigger] d.child(n)) == d by {
                assert(d.child(n).parts.drop_last() =~= d.parts);
            }
        }
    }
    lemma_flat_differs(at, files_of(tree), |x: FileView| above(x.rel));
    assert forall|d: PathView| #[trigger] at.contains(d) implies symlinks_of(tree)(
        d,
    ).no_duplicates() by {
        assert(files_of(tree)(d).no_duplicates());
    }
    assert forall|d: PathView, x: SymlinkView| #[trigger]
        symlinks_of(tree)(d).contains(x) implies above(x.rel) == d by {
        assert(files_of(tree)(d).no_duplicates());
    }
    lemma_flat_differs(at, symlinks_of(tree), |x: SymlinkView| above(x.rel));
}

/// Two scans of one tree agree, in whatever order the directories come back: both fail,
/// with the same error, just if the source itself cannot be read; and where they do not,
/// they list the same directories, files, links and things that cannot be read, and come
/// to the same size. That another directory cannot be read never makes a scan fail.
pub proof fn law_scans_agree(
    root: PathView,
    tree: Tree,
    a: Seq<ScanView>,
    b: Seq<ScanView>,
    p: PlanView,
    q: PlanView,
)
    requires
        names_differ(tree),
        is_scan(a, root, tree),
        is_scan(b, root, tree),
        ordered(p, a.last().plan),
        ordered(q, b.last().plan),
    ensures
        a.last().failed == b.last().failed,
        a.last().failed is Some <==> tree(a.last().top()) is Err,
        a.last().failed is None ==> {
            &&& p.dirs.to_multiset() == q.dirs.to_multiset()
            &&& p.files.to_multiset() == q.files.to_multiset()
            &&& p.symlinks.to_multiset() == q.symlinks.to_multiset()
            &&& p.unreadable.to_multiset() == q.unreadable.to_multiset()
            &&& sum_sizes(p.files) == sum_sizes(q.files)
        },
{
    let s = a.last();
    let t = b.last();
    let g = lemma_scanned(a, root, tree, a.len() - 1);
    let h = lemma_scanned(b, root, tree, b.len() - 1);
    assert(back(s, 0) && back(t, 0));
    assert(s.top() == t.top());
    if s.failed is None {
        let top = s.top();
        crate::survey::law_scan_finds_all(s, tree, p);
        crate::survey::law_scan_finds_all(t, tree, q);
        lemma_places(s, tree, g, p);
        lemma_places(t, tree, h, q);
        let x = places(s, g);
        let y = places(t, h);
        assert forall|d: PathView| x.contains(d) <==> y.contains(d) by {
            if covers(p, top, d) {
                lemma_covers_same(p, q, top, tree, d);
            }
            if covers(q, top, d) {
                lemma_covers_same(q, p, top, tree, d);
            }
        }
        lemma_flat_same(x, y, files_of(tree));
        lemma_flat_same(x, y, symlinks_of(tree));
        lemma_flat_same(x, y, unreadable_of(tree));
        lemma_lists_differ(s, tree, g, p);
        lemma_lists_differ(t, tree, h, q);
        lemma_rearranged_multiset(p.files, s.plan.files);
        lemma_rearranged_multiset(q.files, t.plan.files);
        lemma_same_sum(p.files, q.files, file_size());
        crate::survey::law_by_depth(s.plan.dirs);
        crate::survey::law_by_depth(t.plan.dirs);
        crate::survey::law_scan_gives_tree(s, tree, p);
        crate::survey::law_scan_gives_tree(t, tree, q);
        assert forall|d: PathView| p.dirs.contains(d) <==> q.dirs.contains(d) by {
            lemma_not_top(p, top, tree);
            lemma_not_top(q, top, tree);
            if p.dirs.contains(d) {
                assert(covers(p, top, d));
                lemma_covers_same(p, q, top, tree, d);
            }
            if q.dirs.contains(d) {
                assert(covers(q, top, d));
                lemma_covers_same(q, p, top, tree, d);
            }
        }
        lemma_same_elements(p.dirs, q.dirs);
    }
}

proof fn lemma_not_top(p: PlanView, top: PathView, tree: Tree)
    requires
        holds_only(p, top, tree),
        top.parts.len() == 0,
    ensures
        !p.dirs.contains(top),
{
    if p.dirs.contains(top) {
        let (e, f) = choose|e: PathView, f: FoundView|
            covers(p, top, e) && #[trigger] dir_in(tree, e, f, top);
        assert(top.parts.len() == e.parts.len() + 1);
    }
}

/// Whether every entry of the tree has a name that is one.
pub open spec fn names_are_names(tree: Tree) -> bool {
    forall|d: PathView|
        #![trigger tree(d)]
        tree(d) matches Ok(fs) ==> forall|i: int|
            0 <= i < fs.len() ==> is_name((#[trigger] fs[i]).info.name)
}

proof fn lemma_leads_down(p: PlanView, top: PathView, tree: Tree, d: PathView)
    requires
        holds_only(p, top, tree),
        names_are_names(tree),
        leads_down(top.style, top),
        covers(p, top, d),
    ensures
        leads_down(top.style, d),
    decreases d.parts.len(),
{
    if d != top {
        assert(p.dirs.contains(d));
        let (e, f) = choose|e: PathView, f: FoundView|
            covers(p, top, e) && #[trigger] dir_in(tree, e, f, d);
        assert(d.parts.len() == e.parts.len() + 1);
        lemma_leads_down(p, top, tree, e);
        let fs = tree(e)->Ok_0;
        let j = choose|j: int| 0 <= j < fs.len() && fs[j] == f;
        lemma_child_leads_down(top, e, f.info.name);
    }
}

proof fn lemma_child_leads_down(top: PathView, d: PathView, name: Seq<u8>)
    requires
        leads_down(top.style, d),
        is_name(name),
    ensures
        leads_down(top.style, d.child(name)),
        d.child(name).parts.len() > 0,
        d.child(name).parent() == Some(d),
{
    let c = d.child(name);
    assert(c.parts.drop_last() =~= d.parts);
    assert forall|i: int| 0 <= i < c.parts.len() implies is_name(#[trigger] c.parts[i]) by {
        if i < d.parts.len() {
            assert(is_name(d.parts[i]));
        }
    }
}

/// The entry that something listed is, by its directory and its name.
proof fn lemma_entry(p: PlanView, top: PathView, tree: Tree, m: int) -> (r: (PathView, int))
    requires
        holds_only(p, top, tree),
        0 <= m < all_rels(p).len(),
    ensures
        covers(p, top, r.0),
        tree(r.0) is Ok,
        0 <= r.1 < (tree(r.0)->Ok_0).len(),
        all_rels(p)[m] == r.0.child((tree(r.0)->Ok_0)[r.1].info.name),
        m < p.dirs.len() ==> (tree(r.0)->Ok_0)[r.1].info.kind == EntryKind::Dir,
        p.dirs.len() <= m < p.dirs.len() + p.files.len() ==> (tree(r.0)->Ok_0)[r.1].info.kind
            == EntryKind::File && p.files[m - p.dirs.len()] == (FileView {
            rel: r.0.child((tree(r.0)->Ok_0)[r.1].info.name),
            size: (tree(r.0)->Ok_0)[r.1].info.size,
            hardlink_id: (tree(r.0)->Ok_0)[r.1].info.hardlink_id,
        }),
        m >= p.dirs.len() + p.files.len() ==> (tree(r.0)->Ok_0)[r.1].info.kind
            == EntryKind::Symlink && (tree(r.0)->Ok_0)[r.1].target == Ok::<Seq<u8>, Seq<char>>(
            p.symlinks[m - p.dirs.len() - p.files.len()].target,
        ) && p.symlinks[m - p.dirs.len() - p.files.len()].rel == r.0.child(
            (tree(r.0)->Ok_0)[r.1].info.name,
        ),
{
    let (d, f) = if m < p.dirs.len() {
        let x = p.dirs[m];
        assert(p.dirs.contains(x));
        choose|d: PathView, f: FoundView| covers(p, top, d) && #[trigger] dir_in(tree, d, f, x)
    } else if m < p.dirs.len() + p.files.len() {
        let x = p.files[m - p.dirs.len()];
        assert(p.files.contains(x));
        choose|d: PathView, f: FoundView| covers(p, top, d) && #[trigger] file_in(tree, d, f, x)
    } else {
        let x = p.symlinks[m - p.dirs.len() - p.files.len()];
        assert(p.symlinks.contains(x));
        choose|d: PathView, f: FoundView| covers(p, top, d) && #[trigger] symlink_in(tree, d, f, x)
    };
    let fs = tree(d)->Ok_0;
    let j = choose|j: int| 0 <= j < fs.len() && fs[j] == f;
    (d, j)
}

/// What a scan lists can be removed and copied: each thing is listed once, by a path that
/// leads down, and with the directory that it is in.
pub proof fn law_scan_is_well_listed(root: PathView, tree: Tree, a: Seq<ScanView>, p: PlanView)
    requires
        names_differ(tree),
        names_are_names(tree),
        is_scan(a, root, tree),
        a.last().failed is None,
        ordered(p, a.last().plan),
    ensures
        well_listed(p, root),
{
    let s = a.last();
    let h = lemma_scanned(a, root, tree, a.len() - 1);
    let top = s.top();
    assert(top == top_of(root.style));
    crate::survey::law_scan_finds_all(s, tree, p);
    crate::survey::law_scan_gives_tree(s, tree, p);
    crate::remove::law_tree_is_removable(p.dirs, top);
    lemma_lists_differ(s, tree, h, p);
    lemma_rearranged_multiset(p.files, s.plan.files);
    let xs = all_rels(p);
    let d = p.dirs.len() as int;
    let n = p.files.len() as int;
    assert forall|i: int| 0 <= i < xs.len() implies leads_down(root.style, #[trigger] xs[i])
        && xs[i].parts.len() > 0 by {
        let (e, j) = lemma_entry(p, top, tree, i);
        lemma_leads_down(p, top, tree, e);
        lemma_child_leads_down(top, e, (tree(e)->Ok_0)[j].info.name);
    }
    assert forall|i: int, j: int| 0 <= i < xs.len() && 0 <= j < xs.len() && i != j implies xs[i]
        != xs[j] by {
        if xs[i] == xs[j] {
            let (e, x) = lemma_entry(p, top, tree, i);
            let (f, y) = lemma_entry(p, top, tree, j);
            lemma_leads_down(p, top, tree, e);
            lemma_leads_down(p, top, tree, f);
            let fs = tree(e)->Ok_0;
            let gs = tree(f)->Ok_0;
            lemma_child_leads_down(top, e, fs[x].info.name);
            lemma_child_leads_down(top, f, gs[y].info.name);
            assert(e == f);
            assert(xs[i].parts.last() == fs[x].info.name);
            assert(xs[j].parts.last() == fs[y].info.name);
            if x < y {
                assert(fs[x].info.name != fs[y].info.name);
            } else if y < x {
                assert(fs[y].info.name != fs[x].info.name);
            }
            assert(x == y);
            if i < d {
                assert(p.dirs[i] != p.dirs[j]);
            } else if i < d + n {
                assert(p.files[i - d] != p.files[j - d]);
            } else {
                assert(p.symlinks[i - d - n] != p.symlinks[j - d - n]);
            }
        }
    }
    assert forall|i: int| 0 <= i < rels(p).len() implies all_dirs(p.dirs, top).contains(
        home(#[trigger] rels(p)[i], top),
    ) by {
        assert(rels(p)[i] == xs[d + i]);
        let (e, j) = lemma_entry(p, top, tree, d + i);
        lemma_leads_down(p, top, tree, e);
        lemma_child_leads_down(top, e, (tree(e)->Ok_0)[j].info.name);
        let all = all_dirs(p.dirs, top);
        if e == top {
            assert(all[0] == e);
        } else {
            let k = choose|k: int| 0 <= k < p.dirs.len() && p.dirs[k] == e;
            assert(all[k + 1] == e);
        }
    }
}

/// Whether an entry of a directory is what is at `at`.
pub open spec fn is_entry_at(f: FoundView, disk: Map<PathView, Node>, at: PathView) -> bool {
    disk.dom().contains(at) && match f.info.kind {
        EntryKind::Dir => disk[at] == Node::Dir,
        EntryKind::File => disk[at] is File,
        EntryKind::Symlink => disk[at] is Link && (f.target matches Ok(t) ==> disk[at]
            == Node::Link(t)),
    }
}

/// Whether what reading a directory gives is on the disk.
#[verifier::opaque]
pub open spec fn shows_only(tree: Tree, disk: Map<PathView, Node>, root: PathView) -> bool {
    forall|d: PathView, j: int|
        tree(d) is Ok && 0 <= j < (tree(d)->Ok_0).len() ==> is_entry_at(
            #[trigger] (tree(d)->Ok_0)[j],
            disk,
            root.join(d.child((tree(d)->Ok_0)[j].info.name)),
        )
}

/// Whether reading a directory gives all that is in it, if it gives anything.
#[verifier::opaque]
pub open spec fn shows_all(tree: Tree, disk: Map<PathView, Node>, root: PathView) -> bool {
    forall|d: PathView, name: Seq<u8>|
        tree(d) is Ok && is_name(name) && disk.dom().contains(root.join(#[trigger] d.child(name)))
            ==> exists|j: int|
            0 <= j < (tree(d)->Ok_0).len() && (#[trigger] (tree(d)->Ok_0)[j]).info.name == name
}

/// Whether files that are told to be one hold the same.
#[verifier::opaque]
pub open spec fn shows_one(tree: Tree, disk: Map<PathView, Node>, root: PathView) -> bool {
    forall|d: PathView, f: FoundView, x: FileView, e: PathView, g: FoundView, y: FileView|
        #[trigger] file_in(tree, d, f, x) && #[trigger] file_in(tree, e, g, y) && x.hardlink_id
            is Some && x.hardlink_id == y.hardlink_id ==> disk[root.join(x.rel)]
            == disk[root.join(y.rel)]
}

/// Whether the tree is what is on the disk below `root`.
pub open spec fn shows(tree: Tree, disk: Map<PathView, Node>, root: PathView) -> bool {
    shows_only(tree, disk, root) && shows_all(tree, disk, root) && shows_one(tree, disk, root)
}

proof fn lemma_shown(tree: Tree, disk: Map<PathView, Node>, root: PathView, d: PathView, j: int)
    requires
        shows(tree, disk, root),
        tree(d) is Ok,
        0 <= j < (tree(d)->Ok_0).len(),
    ensures
        is_entry_at(
            (tree(d)->Ok_0)[j],
            disk,
            root.join(d.child((tree(d)->Ok_0)[j].info.name)),
        ),
{
    reveal(shows_only);
}

proof fn lemma_shown_name(
    tree: Tree,
    disk: Map<PathView, Node>,
    root: PathView,
    d: PathView,
    name: Seq<u8>,
) -> (j: int)
    requires
        shows(tree, disk, root),
        tree(d) is Ok,
        is_name(name),
        disk.dom().contains(root.join(d.child(name))),
    ensures
        0 <= j < (tree(d)->Ok_0).len(),
        (tree(d)->Ok_0)[j].info.name == name,
{
    reveal(shows_all);
    choose|j: int|
        0 <= j < (tree(d)->Ok_0).len() && (#[trigger] (tree(d)->Ok_0)[j]).info.name == name
}

proof fn lemma_shown_same(
    p: PlanView,
    top: PathView,
    tree: Tree,
    disk: Map<PathView, Node>,
    root: PathView,
    i: int,
    j: int,
)
    requires
        shows(tree, disk, root),
        holds_only(p, top, tree),
        0 <= i < p.files.len(),
        0 <= j < p.files.len(),
        p.files[i].hardlink_id is Some,
        p.files[i].hardlink_id == p.files[j].hardlink_id,
    ensures
        disk[root.join(p.files[i].rel)] == disk[root.join(p.files[j].rel)],
{
    reveal(shows_one);
    let x = p.files[i];
    let y = p.files[j];
    assert(p.files.contains(x) && p.files.contains(y));
    let (d, f) = choose|d: PathView, f: FoundView|
        covers(p, top, d) && #[trigger] file_in(tree, d, f, x);
    let (e, g) = choose|e: PathView, g: FoundView|
        covers(p, top, e) && #[trigger] file_in(tree, e, g, y);
    assert(file_in(tree, d, f, x) && file_in(tree, e, g, y));
}

/// Whether everything below `root` is in a directory.
#[verifier::opaque]
pub open spec fn grows(disk: Map<PathView, Node>, root: PathView) -> bool {
    forall|r: PathView|
        leads_down(root.style, r) && r.parts.len() > 0 && disk.dom().contains(
            #[trigger] root.join(r),
        ) ==> disk.dom().contains(root.join(above(r))) && disk[root.join(above(r))] == Node::Dir
}

proof fn lemma_grown(disk: Map<PathView, Node>, root: PathView, r: PathView)
    requires
        grows(disk, root),
        leads_down(root.style, r),
        r.parts.len() > 0,
        disk.dom().contains(root.join(r)),
    ensures
        disk.dom().contains(root.join(above(r))),
        disk[root.join(above(r))] == Node::Dir,
{
    reveal(grows);
}

/// A scan tells what is on the disk, and where nothing was found that cannot be read,
/// it lists all that is there.
pub proof fn law_scan_tells(
    root: PathView,
    tree: Tree,
    disk: Map<PathView, Node>,
    a: Seq<ScanView>,
    p: PlanView,
)
    requires
        names_differ(tree),
        names_are_names(tree),
        shows(tree, disk, root),
        grows(disk, root),
        is_scan(a, root, tree),
        a.last().failed is None,
        ordered(p, a.last().plan),
    ensures
        tells(p, disk, root),
        p.unreadable.len() == 0 ==> forall|r: PathView| #[trigger]
            contents(disk, root).dom().contains(r) ==> lists(p, r),
{
    law_scan_is_well_listed(root, tree, a, p);
    let s = a.last();
    let h = lemma_scanned(a, root, tree, a.len() - 1);
    let top = s.top();
    crate::survey::law_scan_finds_all(s, tree, p);
    let xs = all_rels(p);
    let d = p.dirs.len() as int;
    let n = p.files.len() as int;
    assert forall|i: int| 0 <= i < xs.len() implies disk.dom().contains(
        root.join(#[trigger] xs[i]),
    ) && (i < d ==> disk[root.join(xs[i])] == Node::Dir) && (d <= i < d + n ==> disk[root.join(
        xs[i],
    )] is File) && (i >= d + n ==> disk[root.join(xs[i])] == Node::Link(
        p.symlinks[i - d - n].target,
    )) by {
        let (e, j) = lemma_entry(p, top, tree, i);
        lemma_shown(tree, disk, root, e, j);
    }
    assert forall|i: int| 0 <= i < p.dirs.len() implies disk[root.join(#[trigger] p.dirs[i])]
        == Node::Dir by {
        assert(xs[i] == p.dirs[i]);
    }
    assert forall|i: int| 0 <= i < p.symlinks.len() implies disk[root.join(
        (#[trigger] p.symlinks[i]).rel,
    )] == Node::Link(p.symlinks[i].target) by {
        assert(xs[d + n + i] == p.symlinks[i].rel);
    }
    assert forall|i: int| 0 <= i < p.files.len() implies disk[root.join(
        (#[trigger] p.files[i]).rel,
    )] is File by {
        assert(xs[d + i] == p.files[i].rel);
    }
    assert forall|i: int, j: int|
        0 <= i < p.files.len() && 0 <= j < p.files.len() && (#[trigger] p.files[i]).hardlink_id
            is Some && p.files[i].hardlink_id == (#[trigger] p.files[j]).hardlink_id implies disk[root.join(
    p.files[i].rel)] == disk[root.join(p.files[j].rel)] by {
        lemma_shown_same(p, top, tree, disk, root, i, j);
    }
    assert(tells(p, disk, root));
    if p.unreadable.len() == 0 {
        assert forall|r: PathView| #[trigger]
            contents(disk, root).dom().contains(r) implies lists(p, r) by {
            lemma_lists_all(root, tree, disk, p, r);
        }
    }
}

proof fn lemma_lists_all(
    root: PathView,
    tree: Tree,
    disk: Map<PathView, Node>,
    p: PlanView,
    r: PathView,
)
    requires
        shows(tree, disk, root),
        grows(disk, root),
        tells(p, disk, root),
        holds_all(p, top_of(root.style), tree),
        p.unreadable.len() == 0,
        leads_down(root.style, r),
        disk.dom().contains(root.join(r)),
    ensures
        lists(p, r),
    decreases r.parts.len(),
{
    let top = top_of(root.style);
    if r.parts.len() > 0 {
        let q = above(r);
        let name = r.parts.last();
        assert(is_name(r.parts[r.parts.len() - 1]));
        assert(leads_down(root.style, q)) by {
            assert forall|i: int| 0 <= i < q.parts.len() implies is_name(#[trigger] q.parts[i]) by {
                assert(is_name(r.parts[i]));
            }
        }
        lemma_grown(disk, root, r);
        lemma_lists_all(root, tree, disk, p, q);
        assert(covers(p, top, q)) by {
            if q.parts.len() == 0 {
                assert(q =~= top);
            } else if !p.dirs.contains(q) {
                let k = choose|k: int| 0 <= k < rels(p).len() && rels(p)[k] == q;
                if k < p.files.len() {
                    assert(p.files[k].rel == q);
                } else {
                    assert(p.symlinks[k - p.files.len()].rel == q);
                }
            }
        }
        assert(q.child(name) == r) by {
            assert(q.parts.push(name) =~= r.parts);
        }
        let l = tree(q);
        assert(crate::survey::has_listing(p, q, l));
        let fs = l->Ok_0;
        let j = lemma_shown_name(tree, disk, root, q, name);
        assert(has_entry(p, q, fs[j]));
        let f = fs[j];
        if f.info.kind == EntryKind::File {
            let x = FileView { rel: r, size: f.info.size, hardlink_id: f.info.hardlink_id };
            let k = choose|k: int| 0 <= k < p.files.len() && p.files[k] == x;
            assert(rels(p)[k] == r);
        } else if f.info.kind == EntryKind::Symlink {
            if let Ok(target) = f.target {
                let x = SymlinkView { rel: r, target };
                let k = choose|k: int| 0 <= k < p.symlinks.len() && p.symlinks[k] == x;
                assert(rels(p)[p.files.len() + k] == r);
            }
        }
    }
}

/// Scanning a tree and copying what was found, in whatever order answers come: where
/// nothing was found that cannot be read and copying ends without a failure, the copy is
/// the tree, with all that is in it and nothing else, every file was counted, and the
/// source is as it was. Names of one file are names of one file in the copy, but for
/// those that could not be linked.
pub proof fn law_scan_and_copy(
    src: PathView,
    dst: PathView,
    tree: Tree,
    a: Seq<ScanView>,
    p: PlanView,
    states: Seq<CopyView>,
    disks: Seq<Disk>,
)
    requires
        names_differ(tree),
        names_are_names(tree),
        disks.len() > 0,
        shows(tree, disks[0].nodes, src),
        grows(disks[0].nodes, src),
        is_scan(a, src, tree),
        a.last().failed is None,
        ordered(p, a.last().plan),
        p.unreadable.len() == 0,
        p.total_items() <= usize::MAX,
        asunder(src, dst),
        src.style == dst.style,
        disks[0].nodes.dom().contains(src),
        disks[0].nodes[src] == Node::Dir,
        disks[0].nodes.dom().contains(dst),
        disks[0].nodes[dst] == Node::Dir,
        forall|r: PathView|
            leads_down(dst.style, r) && r.parts.len() > 0 ==> !disks[0].nodes.dom().contains(
                #[trigger] dst.join(r),
            ),
        states.len() == disks.len(),
        states[0] == CopyView::start(src, dst, p, ProgressView::empty()),
        forall|i: int|
            #![trigger states[i]]
            0 <= i < states.len() - 1 ==> copies_on(
                states[i],
                disks[i],
                states[i + 1],
                disks[i + 1],
            ),
        states.last().finished(),
        !states.last().progress.aborted,
    ensures
        contents(disks.last().nodes, dst) == contents(disks[0].nodes, src),
        contents(disks.last().nodes, src) == contents(disks[0].nodes, src),
        states.last().progress.files_done == p.files.len(),
        copies_names(p.files, states, disks[0], disks.last(), dst),
{
    law_scan_tells(src, tree, disks[0].nodes, a, p);
    crate::replica::law_every_copy(src, dst, p, states, disks);
}

} // verus!
