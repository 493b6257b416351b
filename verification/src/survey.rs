//! What a finished scan says of the tree that was scanned.

use vstd::prelude::*;

use crate::order::lemma_rearranged_contains;
use crate::path::PathView;
use crate::plan::by_depth;
use crate::plan::deepest;
use crate::plan::layer;
use crate::plan::layers;
use crate::plan::ordered;
use crate::plan::FileView;
use crate::plan::FoundView;
use crate::plan::ListingView;
use crate::plan::PlanView;
use crate::plan::ScanView;
use crate::plan::SymlinkView;
use crate::platform::EntryKind;

verus! {

/// A tree of directories: what reading each of them gives.
pub type Tree = spec_fn(PathView) -> ListingView;

/// Whether an entry of the directory `d` is in the plan.
pub open spec fn has_entry(plan: PlanView, d: PathView, f: FoundView) -> bool {
    let at = d.child(f.info.name);
    match f.info.kind {
        EntryKind::Dir => plan.dirs.contains(at),
        EntryKind::File => plan.files.contains(
            FileView { rel: at, size: f.info.size, hardlink_id: f.info.hardlink_id },
        ),
        EntryKind::Symlink => match f.target {
            Ok(target) => plan.symlinks.contains(SymlinkView { rel: at, target }),
            Err(e) => plan.unreadable.contains((at, e)),
        },
    }
}

/// Whether all that reading the directory `d` gave is in the plan.
pub open spec fn has_listing(plan: PlanView, d: PathView, l: ListingView) -> bool {
    match l {
        Ok(fs) => forall|j: int| 0 <= j < fs.len() ==> has_entry(plan, d, #[trigger] fs[j]),
        Err(e) => plan.unreadable.contains((d, e.text)),
    }
}

/// Whether a plan covers the directory `d`.
pub open spec fn covers(plan: PlanView, top: PathView, d: PathView) -> bool {
    d == top || plan.dirs.contains(d)
}

/// Whether a plan holds everything in the tree that can be reached from `top`
/// without following a link.
pub open spec fn holds_all(plan: PlanView, top: PathView, tree: Tree) -> bool {
    forall|d: PathView|
        #![trigger tree(d)]
        covers(plan, top, d) ==> has_listing(plan, d, tree(d))
}

/// Whether `f` is an entry of the directory `d`.
pub open spec fn is_entry(tree: Tree, d: PathView, f: FoundView) -> bool {
    tree(d) matches Ok(fs) && fs.contains(f)
}

/// Whether `x` is a directory in `d`.
pub open spec fn dir_in(tree: Tree, d: PathView, f: FoundView, x: PathView) -> bool {
    is_entry(tree, d, f) && f.info.kind == EntryKind::Dir && x == d.child(f.info.name)
}

/// Whether `x` is a file in `d`.
pub open spec fn file_in(tree: Tree, d: PathView, f: FoundView, x: FileView) -> bool {
    is_entry(tree, d, f) && f.info.kind == EntryKind::File && x == (FileView {
        rel: d.child(f.info.name),
        size: f.info.size,
        hardlink_id: f.info.hardlink_id,
    })
}

/// Whether `x` is a link in `d`.
pub open spec fn symlink_in(tree: Tree, d: PathView, f: FoundView, x: SymlinkView) -> bool {
    is_entry(tree, d, f) && f.info.kind == EntryKind::Symlink && f.target == Ok::<
        Seq<u8>,
        Seq<char>,
    >(x.target) && x.rel == d.child(f.info.name)
}

/// Whether a plan holds nothing but what is in the tree.
pub open spec fn holds_only(plan: PlanView, top: PathView, tree: Tree) -> bool {
    &&& forall|x: PathView| #[trigger]
        plan.dirs.contains(x) ==> exists|d: PathView, f: FoundView|
            covers(plan, top, d) && #[trigger] dir_in(tree, d, f, x)
    &&& forall|x: FileView| #[trigger]
        plan.files.contains(x) ==> exists|d: PathView, f: FoundView|
            covers(plan, top, d) && #[trigger] file_in(tree, d, f, x)
    &&& forall|x: SymlinkView| #[trigger]
        plan.symlinks.contains(x) ==> exists|d: PathView, f: FoundView|
            covers(plan, top, d) && #[trigger] symlink_in(tree, d, f, x)
}

/// Whether no directory of the tree has two entries of one name.
pub open spec fn names_differ(tree: Tree) -> bool {
    forall|d: PathView|
        #![trigger tree(d)]
        tree(d) matches Ok(fs) ==> forall|i: int, j: int|
            0 <= i < j < fs.len() ==> (#[trigger] fs[i]).info.name != (#[trigger] fs[j]).info.name
}

/// Whether the entries of the directory with ticket `p` have come back.
spec fn settled(s: ScanView, p: int) -> bool {
    0 <= p < s.open.len() && !s.open[p]
}

/// That the directory `k` is the entry `j` of the directory with ticket `p`.
spec fn origin_ok(s: ScanView, tree: Tree, k: int, from: (int, int)) -> bool {
    let (p, j) = from;
    &&& settled(s, p)
    &&& p <= k
    &&& tree(s.rel(p)) matches Ok(fs) && 0 <= j < fs.len() && fs[j].info.kind == EntryKind::Dir
        && s.plan.dirs[k] == s.rel(p).child(fs[j].info.name)
}

spec fn file_found(s: ScanView, tree: Tree, x: FileView) -> bool {
    exists|p: int, f: FoundView| settled(s, p) && #[trigger] file_in(tree, s.rel(p), f, x)
}

spec fn symlink_found(s: ScanView, tree: Tree, x: SymlinkView) -> bool {
    exists|p: int, f: FoundView| settled(s, p) && #[trigger] symlink_in(tree, s.rel(p), f, x)
}

spec fn traced(s: ScanView, tree: Tree, o: Seq<(int, int)>) -> bool {
    &&& s.open.len() <= s.tickets()
    &&& o.len() == s.plan.dirs.len()
    &&& forall|k: int| 0 <= k < o.len() ==> origin_ok(s, tree, k, #[trigger] o[k])
    &&& forall|k: int, l: int| 0 <= k < l < o.len() ==> #[trigger] o[k] != #[trigger] o[l]
    &&& forall|p: int| #[trigger]
        settled(s, p) ==> (has_listing(s.plan, s.rel(p), tree(s.rel(p))) || (p == 0
            && s.failed is Some))
    &&& forall|i: int|
        0 <= i < s.plan.files.len() ==> file_found(s, tree, #[trigger] s.plan.files[i])
    &&& forall|i: int|
        0 <= i < s.plan.symlinks.len() ==> symlink_found(s, tree, #[trigger] s.plan.symlinks[i])
}

/// Whether a scan is one of the tree: what came back is what the tree gives.
pub closed spec fn scan_of(s: ScanView, tree: Tree) -> bool {
    exists|o: Seq<(int, int)>| traced(s, tree, o)
}

/// Every scan begins as one of the tree.
pub proof fn law_scan_begins(root: PathView, tree: Tree)
    ensures
        scan_of(ScanView::start(root), tree),
{
    assert(traced(ScanView::start(root), tree, Seq::empty()));
}

/// Handing out a directory keeps it one of the tree.
pub proof fn law_scan_takes(s: ScanView, tree: Tree)
    requires
        scan_of(s, tree),
    ensures
        scan_of(s.taken(), tree),
{
    let o = choose|o: Seq<(int, int)>| traced(s, tree, o);
    let t = s.taken();
    assert forall|p: int| settled(t, p) == #[trigger] settled(s, p) by {}
    assert forall|p: int| #[trigger] t.rel(p) == s.rel(p) by {}
    assert forall|p: int| #[trigger] settled(t, p) implies (has_listing(
        t.plan,
        t.rel(p),
        tree(t.rel(p)),
    ) || (p == 0 && t.failed is Some)) by {
        assert(settled(s, p));
    }
    assert forall|k: int| 0 <= k < o.len() implies origin_ok(t, tree, k, #[trigger] o[k]) by {
        assert(origin_ok(s, tree, k, o[k]));
    }
    assert forall|i: int| 0 <= i < t.plan.files.len() implies file_found(
        t,
        tree,
        #[trigger] t.plan.files[i],
    ) by {
        let x = s.plan.files[i];
        assert(file_found(s, tree, x));
        let (p, f) = choose|p: int, f: FoundView|
            settled(s, p) && #[trigger] file_in(tree, s.rel(p), f, x);
        assert(settled(t, p) && file_in(tree, t.rel(p), f, x));
    }
    assert forall|i: int| 0 <= i < t.plan.symlinks.len() implies symlink_found(
        t,
        tree,
        #[trigger] t.plan.symlinks[i],
    ) by {
        let x = s.plan.symlinks[i];
        assert(symlink_found(s, tree, x));
        let (p, f) = choose|p: int, f: FoundView|
            settled(s, p) && #[trigger] symlink_in(tree, s.rel(p), f, x);
        assert(settled(t, p) && symlink_in(tree, t.rel(p), f, x));
    }
    assert(traced(t, tree, o));
}

/// Where the directories are among some entries.
spec fn dir_places(fs: Seq<FoundView>) -> Seq<int>
    decreases fs.len(),
{
    if fs.len() == 0 {
        Seq::empty()
    } else if fs.last().info.kind == EntryKind::Dir {
        dir_places(fs.drop_last()).push(fs.len() - 1)
    } else {
        dir_places(fs.drop_last())
    }
}

proof fn lemma_contains_push<A>(s: Seq<A>, x: A, y: A)
    ensures
        s.contains(y) ==> s.push(x).contains(y),
        s.push(x).contains(x),
{
    if s.contains(y) {
        let i = choose|i: int| 0 <= i < s.len() && s[i] == y;
        assert(s.push(x)[i] == y);
    }
    assert(s.push(x)[s.len() as int] == x);
}

/// What a plan holds it still holds once an entry is added, and that entry too.
proof fn lemma_with(p: PlanView, rel: PathView, f: FoundView)
    ensures
        has_entry(p.with(rel, f), rel, f),
        grown(p, p.with(rel, f)),
{
    let q = p.with(rel, f);
    let at = rel.child(f.info.name);
    assert forall|x: PathView| #[trigger] p.dirs.contains(x) implies q.dirs.contains(x) by {
        lemma_contains_push(p.dirs, at, x);
    }
    let item = FileView { rel: at, size: f.info.size, hardlink_id: f.info.hardlink_id };
    assert forall|x: FileView| #[trigger] p.files.contains(x) implies q.files.contains(x) by {
        lemma_contains_push(p.files, item, x);
    }
    assert forall|x: SymlinkView| #[trigger] p.symlinks.contains(x) implies q.symlinks.contains(
        x,
    ) by {
        if let Ok(target) = f.target {
            lemma_contains_push(p.symlinks, SymlinkView { rel: at, target }, x);
        }
    }
    assert forall|x: (PathView, Seq<char>)| #[trigger]
        p.unreadable.contains(x) implies q.unreadable.contains(x) by {
        if let Err(e) = f.target {
            lemma_contains_push(p.unreadable, (at, e), x);
        }
    }
    match f.info.kind {
        EntryKind::Dir => {
            lemma_contains_push(p.dirs, at, at);
        },
        EntryKind::File => {
            lemma_contains_push(p.files, item, item);
        },
        EntryKind::Symlink => match f.target {
            Ok(target) => {
                let l = SymlinkView { rel: at, target };
                lemma_contains_push(p.symlinks, l, l);
            },
            Err(e) => {
                lemma_contains_push(p.unreadable, (at, e), (at, e));
            },
        },
    }
}

/// Whether `q` holds at least what `p` holds.
spec fn grown(p: PlanView, q: PlanView) -> bool {
    &&& forall|x: PathView| #[trigger] p.dirs.contains(x) ==> q.dirs.contains(x)
    &&& forall|x: FileView| #[trigger] p.files.contains(x) ==> q.files.contains(x)
    &&& forall|x: SymlinkView| #[trigger] p.symlinks.contains(x) ==> q.symlinks.contains(x)
    &&& forall|x: (PathView, Seq<char>)| #[trigger]
        p.unreadable.contains(x) ==> q.unreadable.contains(x)
}

proof fn lemma_grown_listing(p: PlanView, q: PlanView, d: PathView, l: ListingView)
    requires
        grown(p, q),
        has_listing(p, d, l),
    ensures
        has_listing(q, d, l),
{
    if let Ok(fs) = l {
        assert forall|j: int| 0 <= j < fs.len() implies has_entry(q, d, #[trigger] fs[j]) by {
            assert(has_entry(p, d, fs[j]));
        }
    }
}

/// The directories at some places among the entries of the directory `rel`.
spec fn dirs_at(rel: PathView, fs: Seq<FoundView>, places: Seq<int>) -> Seq<PathView> {
    Seq::new(places.len(), |k: int| rel.child(fs[places[k]].info.name))
}

spec fn file_in_some(tree: Tree, d: PathView, x: FileView) -> bool {
    exists|f: FoundView| file_in(tree, d, f, x)
}

spec fn symlink_in_some(tree: Tree, d: PathView, x: SymlinkView) -> bool {
    exists|f: FoundView| symlink_in(tree, d, f, x)
}

spec fn files_grown(p: PlanView, q: PlanView, rel: PathView, tree: Tree) -> bool {
    &&& p.files.len() <= q.files.len()
    &&& forall|i: int| 0 <= i < p.files.len() ==> #[trigger] q.files[i] == p.files[i]
    &&& forall|i: int|
        p.files.len() <= i < q.files.len() ==> file_in_some(tree, rel, #[trigger] q.files[i])
}

spec fn symlinks_grown(p: PlanView, q: PlanView, rel: PathView, tree: Tree) -> bool {
    &&& p.symlinks.len() <= q.symlinks.len()
    &&& forall|i: int| 0 <= i < p.symlinks.len() ==> #[trigger] q.symlinks[i] == p.symlinks[i]
    &&& forall|i: int|
        p.symlinks.len() <= i < q.symlinks.len() ==> symlink_in_some(
            tree,
            rel,
            #[trigger] q.symlinks[i],
        )
}

proof fn lemma_with_all_holds(p: PlanView, rel: PathView, fs: Seq<FoundView>, tree: Tree)
    requires
        tree(rel) matches Ok(all) && fs.len() <= all.len() && fs == all.take(fs.len() as int),
    ensures
        grown(p, p.with_all(rel, fs)),
        forall|j: int| 0 <= j < fs.len() ==> has_entry(p.with_all(rel, fs), rel, #[trigger] fs[j]),
        p.with_all(rel, fs).dirs == p.dirs + dirs_at(rel, fs, dir_places(fs)),
        forall|k: int|
            0 <= k < dir_places(fs).len() ==> 0 <= #[trigger] dir_places(fs)[k] < fs.len()
                && fs[dir_places(fs)[k]].info.kind == EntryKind::Dir,
        forall|k: int, l: int|
            0 <= k < l < dir_places(fs).len() ==> #[trigger] dir_places(fs)[k]
                < #[trigger] dir_places(fs)[l],
        files_grown(p, p.with_all(rel, fs), rel, tree),
        symlinks_grown(p, p.with_all(rel, fs), rel, tree),
    decreases fs.len(),
{
    let q = p.with_all(rel, fs);
    if fs.len() == 0 {
        assert(q.dirs =~= p.dirs + dirs_at(rel, fs, dir_places(fs)));
    } else {
        let rest = fs.drop_last();
        let f = fs.last();
        let all = tree(rel)->Ok_0;
        assert(rest =~= all.take(rest.len() as int));
        lemma_with_all_holds(p, rel, rest, tree);
        let m = p.with_all(rel, rest);
        lemma_with(m, rel, f);
        assert(all[fs.len() - 1] == f);
        assert(is_entry(tree, rel, f));
        assert forall|j: int| 0 <= j < fs.len() implies has_entry(q, rel, #[trigger] fs[j]) by {
            if j < fs.len() - 1 {
                assert(rest[j] == fs[j]);
                assert(has_entry(m, rel, rest[j]));
            }
        }
        let places = dir_places(fs);
        let places0 = dir_places(rest);
        assert forall|k: int| 0 <= k < places0.len() implies places[k] == places0[k]
            && fs[#[trigger] places[k]] == rest[places0[k]] by {
            assert(0 <= places0[k] < rest.len());
        }
        assert(q.dirs =~= p.dirs + dirs_at(rel, fs, places));
        assert forall|i: int| p.files.len() <= i < q.files.len() implies file_in_some(
            tree,
            rel,
            #[trigger] q.files[i],
        ) by {
            if i < m.files.len() {
                assert(file_in_some(tree, rel, m.files[i]));
            } else {
                assert(file_in(tree, rel, f, q.files[i]));
            }
        }
        assert forall|i: int| p.symlinks.len() <= i < q.symlinks.len() implies symlink_in_some(
            tree,
            rel,
            #[trigger] q.symlinks[i],
        ) by {
            if i < m.symlinks.len() {
                assert(symlink_in_some(tree, rel, m.symlinks[i]));
            } else {
                assert(symlink_in(tree, rel, f, q.symlinks[i]));
            }
        }
    }
}

/// Taking back what the tree gives for a directory keeps it a scan of the tree.
pub proof fn law_scan_absorbs(s: ScanView, tree: Tree, ticket: int)
    requires
        scan_of(s, tree),
        s.owed(ticket),
    ensures
        scan_of(s.absorbed(ticket, tree(s.rel(ticket))), tree),
{
    let o = choose|o: Seq<(int, int)>| traced(s, tree, o);
    let l = tree(s.rel(ticket));
    let t = s.absorbed(ticket, l);
    let rel = s.rel(ticket);
    let o2 = match l {
        Ok(fs) => o + Seq::new(dir_places(fs).len(), |k: int| (ticket, dir_places(fs)[k])),
        Err(_) => o,
    };
    match l {
        Ok(fs) => {
            assert(fs =~= fs.take(fs.len() as int));
            lemma_with_all_holds(s.plan, rel, fs, tree);
            assert(t.plan == s.plan.with_all(rel, fs));
        },
        Err(e) => {
            if ticket != 0 {
                assert(t.plan.unreadable == s.plan.unreadable.push((rel, e.text)));
                lemma_contains_push(s.plan.unreadable, (rel, e.text), (rel, e.text));
                assert forall|x: (PathView, Seq<char>)| #[trigger]
                    s.plan.unreadable.contains(x) implies t.plan.unreadable.contains(x) by {
                    lemma_contains_push(s.plan.unreadable, (rel, e.text), x);
                }
            }
        },
    }
    assert(grown(s.plan, t.plan));
    assert(s.plan.dirs.len() <= t.plan.dirs.len());
    assert forall|p: int| 0 <= p < s.tickets() implies #[trigger] t.rel(p) == s.rel(p) by {}
    assert forall|p: int| #[trigger] settled(s, p) implies settled(t, p) by {}
    assert forall|p: int| #[trigger] settled(t, p) implies settled(s, p) || p == ticket by {}
    assert forall|k: int| 0 <= k < o2.len() implies origin_ok(t, tree, k, #[trigger] o2[k]) by {
        if k < o.len() {
            assert(o2[k] == o[k]);
            assert(origin_ok(s, tree, k, o[k]));
            let (p, j) = o[k];
            assert(t.rel(p) == s.rel(p));
            assert(t.plan.dirs[k] == s.plan.dirs[k]);
        } else {
            let fs = l->Ok_0;
            let n = k - o.len();
            assert(t.plan.dirs[k] == dirs_at(rel, fs, dir_places(fs))[n]);
            assert(t.rel(ticket) == rel);
        }
    }
    assert forall|k: int, m: int| 0 <= k < m < o2.len() implies #[trigger] o2[k]
        != #[trigger] o2[m] by {
        if m < o.len() {
            assert(o2[k] == o[k] && o2[m] == o[m]);
        } else if k < o.len() {
            assert(o2[k] == o[k]);
            assert(origin_ok(s, tree, k, o[k]));
            assert(settled(s, o[k].0));
            assert(o2[m].0 == ticket);
        } else {
            let fs = l->Ok_0;
            assert(dir_places(fs)[k - o.len()] < dir_places(fs)[m - o.len()]);
        }
    }
    assert forall|p: int| #[trigger] settled(t, p) implies (has_listing(
        t.plan,
        t.rel(p),
        tree(t.rel(p)),
    ) || (p == 0 && t.failed is Some)) by {
        assert(t.rel(p) == s.rel(p));
        if p != ticket {
            assert(settled(s, p));
            if has_listing(s.plan, s.rel(p), tree(s.rel(p))) {
                lemma_grown_listing(s.plan, t.plan, s.rel(p), tree(s.rel(p)));
            }
        }
    }
    assert forall|i: int| 0 <= i < t.plan.files.len() implies file_found(
        t,
        tree,
        #[trigger] t.plan.files[i],
    ) by {
        let x = t.plan.files[i];
        if i < s.plan.files.len() {
            assert(x == s.plan.files[i]);
            assert(file_found(s, tree, x));
            let (p, f) = choose|p: int, f: FoundView|
                settled(s, p) && #[trigger] file_in(tree, s.rel(p), f, x);
            assert(t.rel(p) == s.rel(p));
            assert(settled(t, p) && file_in(tree, t.rel(p), f, x));
        } else {
            assert(file_in_some(tree, rel, x));
            let f = choose|f: FoundView| file_in(tree, rel, f, x);
            assert(t.rel(ticket) == rel);
            assert(settled(t, ticket) && file_in(tree, t.rel(ticket), f, x));
        }
    }
    assert forall|i: int| 0 <= i < t.plan.symlinks.len() implies symlink_found(
        t,
        tree,
        #[trigger] t.plan.symlinks[i],
    ) by {
        let x = t.plan.symlinks[i];
        if i < s.plan.symlinks.len() {
            assert(x == s.plan.symlinks[i]);
            assert(symlink_found(s, tree, x));
            let (p, f) = choose|p: int, f: FoundView|
                settled(s, p) && #[trigger] symlink_in(tree, s.rel(p), f, x);
            assert(t.rel(p) == s.rel(p));
            assert(settled(t, p) && symlink_in(tree, t.rel(p), f, x));
        } else {
            assert(symlink_in_some(tree, rel, x));
            let f = choose|f: FoundView| symlink_in(tree, rel, f, x);
            assert(t.rel(ticket) == rel);
            assert(settled(t, ticket) && symlink_in(tree, t.rel(ticket), f, x));
        }
    }
    assert(traced(t, tree, o2));
}

proof fn lemma_layer(dirs: Seq<PathView>, n: nat)
    ensures
        forall|x: PathView| #[trigger]
            layer(dirs, n).contains(x) <==> dirs.contains(x) && x.parts.len() == n,
        forall|i: int| 0 <= i < layer(dirs, n).len() ==> (#[trigger] layer(dirs, n)[i]).parts.len() == n,
        dirs.no_duplicates() ==> layer(dirs, n).no_duplicates(),
    decreases dirs.len(),
{
    if dirs.len() > 0 {
        let rest = dirs.drop_last();
        lemma_layer(rest, n);
        let d = dirs.last();
        let a = layer(rest, n);
        let r = layer(dirs, n);
        assert forall|x: PathView| #[trigger] r.contains(x) <==> dirs.contains(x) && x.parts.len()
            == n by {
            if r.contains(x) {
                let i = choose|i: int| 0 <= i < r.len() && r[i] == x;
                if i < a.len() {
                    assert(a[i] == x);
                    assert(a.contains(x));
                    let k = choose|k: int| 0 <= k < rest.len() && rest[k] == x;
                    assert(dirs[k] == x);
                } else {
                    assert(dirs[dirs.len() - 1] == x);
                }
            }
            if dirs.contains(x) && x.parts.len() == n {
                let k = choose|k: int| 0 <= k < dirs.len() && dirs[k] == x;
                if k < rest.len() {
                    assert(rest[k] == x);
                    assert(a.contains(x));
                    let i = choose|i: int| 0 <= i < a.len() && a[i] == x;
                    assert(r[i] == x);
                } else {
                    assert(r[a.len() as int] == x);
                }
            }
        }
        if dirs.no_duplicates() {
            assert(rest.no_duplicates());
            if d.parts.len() == n {
                assert forall|i: int| 0 <= i < a.len() implies #[trigger] a[i] != d by {
                    assert(a.contains(a[i]));
                    let k = choose|k: int| 0 <= k < rest.len() && rest[k] == a[i];
                    assert(dirs[k] != dirs[dirs.len() - 1]);
                }
            }
        }
    }
}

proof fn lemma_layers(dirs: Seq<PathView>, n: nat)
    ensures
        forall|x: PathView| #[trigger]
            layers(dirs, n).contains(x) <==> dirs.contains(x) && x.parts.len() < n,
        forall|i: int, j: int|
            0 <= i <= j < layers(dirs, n).len() ==> (#[trigger] layers(dirs, n)[i]).parts.len() <= (
            #[trigger] layers(dirs, n)[j]).parts.len(),
        forall|i: int| 0 <= i < layers(dirs, n).len() ==> (#[trigger] layers(dirs, n)[i]).parts.len() < n,
        dirs.no_duplicates() ==> layers(dirs, n).no_duplicates(),
    decreases n,
{
    if n > 0 {
        let m = (n - 1) as nat;
        lemma_layers(dirs, m);
        lemma_layer(dirs, m);
        let a = layers(dirs, m);
        let b = layer(dirs, m);
        let r = layers(dirs, n);
        assert(r == a + b);
        assert forall|x: PathView| #[trigger] r.contains(x) <==> dirs.contains(x) && x.parts.len()
            < n by {
            if r.contains(x) {
                let i = choose|i: int| 0 <= i < r.len() && r[i] == x;
                if i < a.len() {
                    assert(a[i] == x);
                    assert(a.contains(x));
                } else {
                    assert(b[i - a.len()] == x);
                    assert(b.contains(x));
                }
            }
            if dirs.contains(x) && x.parts.len() < n {
                if x.parts.len() < m {
                    assert(a.contains(x));
                    let i = choose|i: int| 0 <= i < a.len() && a[i] == x;
                    assert(r[i] == x);
                } else {
                    assert(b.contains(x));
                    let i = choose|i: int| 0 <= i < b.len() && b[i] == x;
                    assert(r[a.len() + i] == x);
                }
            }
        }
        assert forall|i: int, j: int| 0 <= i < j < r.len() && dirs.no_duplicates() implies r[i]
            != r[j] by {
            if j < a.len() {
                assert(a[i] != a[j]);
            } else if i < a.len() {
                assert(a[i].parts.len() < m);
                assert(b[j - a.len()].parts.len() == m);
            } else {
                assert(b[i - a.len()] != b[j - a.len()]);
            }
        }
    }
}

proof fn lemma_deepest(dirs: Seq<PathView>)
    ensures
        forall|x: PathView| #[trigger] dirs.contains(x) ==> x.parts.len() <= deepest(dirs),
    decreases dirs.len(),
{
    if dirs.len() > 0 {
        let rest = dirs.drop_last();
        lemma_deepest(rest);
        assert forall|x: PathView| #[trigger] dirs.contains(x) implies x.parts.len() <= deepest(
            dirs,
        ) by {
            let k = choose|k: int| 0 <= k < dirs.len() && dirs[k] == x;
            if k < rest.len() {
                assert(rest[k] == x);
                assert(rest.contains(x));
            }
        }
    }
}

/// Putting directories in order of depth keeps them all, and puts none twice.
pub proof fn law_by_depth(dirs: Seq<PathView>)
    ensures
        forall|x: PathView| #[trigger] by_depth(dirs).contains(x) <==> dirs.contains(x),
        forall|i: int, j: int|
            0 <= i <= j < by_depth(dirs).len() ==> (#[trigger] by_depth(dirs)[i]).parts.len() <= (
            #[trigger] by_depth(dirs)[j]).parts.len(),
        dirs.no_duplicates() ==> by_depth(dirs).no_duplicates(),
{
    lemma_layers(dirs, deepest(dirs) + 1);
    lemma_deepest(dirs);
}

proof fn lemma_ordered_entry(p: PlanView, q: PlanView, d: PathView, l: ListingView)
    requires
        ordered(p, q),
        has_listing(q, d, l),
    ensures
        has_listing(p, d, l),
{
    law_by_depth(q.dirs);
    if let Ok(fs) = l {
        assert forall|j: int| 0 <= j < fs.len() implies has_entry(p, d, #[trigger] fs[j]) by {
            let f = fs[j];
            assert(has_entry(q, d, f));
            let item = FileView {
                rel: d.child(f.info.name),
                size: f.info.size,
                hardlink_id: f.info.hardlink_id,
            };
            lemma_rearranged_contains(p.files, q.files, item);
        }
    }
}

/// A finished scan holds all that is in the tree, without following a link, and
/// nothing else.
pub proof fn law_scan_finds_all(s: ScanView, tree: Tree, p: PlanView)
    requires
        scan_of(s, tree),
        s.done(),
        s.failed is None,
        ordered(p, s.plan),
    ensures
        holds_all(p, s.top(), tree),
        holds_only(p, s.top(), tree),
{
    let o = choose|o: Seq<(int, int)>| traced(s, tree, o);
    let top = s.top();
    law_by_depth(s.plan.dirs);
    assert forall|d: PathView| covers(p, top, d) implies exists|t: int|
        settled(s, t) && #[trigger] s.rel(t) == d by {
        if d == top {
            assert(settled(s, 0) && s.rel(0) == d);
        } else {
            assert(s.plan.dirs.contains(d));
            let k = choose|k: int| 0 <= k < s.plan.dirs.len() && s.plan.dirs[k] == d;
            assert(settled(s, k + 1) && s.rel(k + 1) == d);
        }
    }
    assert forall|d: PathView|
        #![trigger tree(d)]
        covers(p, top, d) implies has_listing(p, d, tree(d)) by {
        let t = choose|t: int| settled(s, t) && #[trigger] s.rel(t) == d;
        lemma_ordered_entry(p, s.plan, d, tree(d));
    }
    assert forall|t: int| #[trigger] settled(s, t) implies covers(p, top, s.rel(t)) by {
        if t > 0 {
            assert(s.plan.dirs[t - 1] == s.rel(t));
            assert(s.plan.dirs.contains(s.rel(t)));
        }
    }
    assert forall|x: PathView| #[trigger] p.dirs.contains(x) implies exists|
        d: PathView,
        f: FoundView,
    |
        covers(p, top, d) && #[trigger] dir_in(tree, d, f, x) by {
        assert(s.plan.dirs.contains(x));
        let k = choose|k: int| 0 <= k < s.plan.dirs.len() && s.plan.dirs[k] == x;
        assert(origin_ok(s, tree, k, o[k]));
        let (t, j) = o[k];
        let fs = tree(s.rel(t))->Ok_0;
        assert(settled(s, t));
        assert(fs.contains(fs[j]));
        assert(covers(p, top, s.rel(t)) && dir_in(tree, s.rel(t), fs[j], x));
    }
    assert forall|x: FileView| #[trigger] p.files.contains(x) implies exists|
        d: PathView,
        f: FoundView,
    |
        covers(p, top, d) && #[trigger] file_in(tree, d, f, x) by {
        lemma_rearranged_contains(p.files, s.plan.files, x);
        let i = choose|i: int| 0 <= i < s.plan.files.len() && s.plan.files[i] == x;
        assert(file_found(s, tree, s.plan.files[i]));
        let (t, f) = choose|t: int, f: FoundView|
            settled(s, t) && #[trigger] file_in(tree, s.rel(t), f, x);
        assert(covers(p, top, s.rel(t)) && file_in(tree, s.rel(t), f, x));
    }
    assert forall|x: SymlinkView| #[trigger] p.symlinks.contains(x) implies exists|
        d: PathView,
        f: FoundView,
    |
        covers(p, top, d) && #[trigger] symlink_in(tree, d, f, x) by {
        let i = choose|i: int| 0 <= i < s.plan.symlinks.len() && s.plan.symlinks[i] == x;
        assert(symlink_found(s, tree, s.plan.symlinks[i]));
        let (t, f) = choose|t: int, f: FoundView|
            settled(s, t) && #[trigger] symlink_in(tree, s.rel(t), f, x);
        assert(covers(p, top, s.rel(t)) && symlink_in(tree, s.rel(t), f, x));
    }
}

/// Whether the directories of a plan form a tree below `top`, each listed once
/// and behind the one that it is in.
pub open spec fn is_tree(dirs: Seq<PathView>, top: PathView) -> bool {
    &&& dirs.no_duplicates()
    &&& forall|i: int|
        0 <= i < dirs.len() ==> #[trigger] dirs[i].parent() is Some && (dirs[i].parent()->0 == top
            || exists|j: int| 0 <= j < i && #[trigger] dirs[j] == dirs[i].parent()->0)
}

proof fn lemma_distinct(s: ScanView, tree: Tree, o: Seq<(int, int)>, k: int, l: int)
    requires
        traced(s, tree, o),
        names_differ(tree),
        0 <= k < l < s.plan.dirs.len(),
    ensures
        s.plan.dirs[k] != s.plan.dirs[l],
    decreases l,
{
    if s.plan.dirs[k] == s.plan.dirs[l] {
        assert(origin_ok(s, tree, k, o[k]));
        assert(origin_ok(s, tree, l, o[l]));
        let (p, i) = o[k];
        let (q, j) = o[l];
        let fp = tree(s.rel(p))->Ok_0;
        let fq = tree(s.rel(q))->Ok_0;
        let a = s.rel(p).child(fp[i].info.name);
        let b = s.rel(q).child(fq[j].info.name);
        assert(a.parts.drop_last() =~= s.rel(p).parts);
        assert(b.parts.drop_last() =~= s.rel(q).parts);
        assert(a.parts.last() == b.parts.last());
        assert(s.rel(p) == s.rel(q));
        assert(fp[i].info.name == fq[j].info.name);
        assert(i == j) by {
            assert(tree(s.rel(p)) is Ok);
            if i < j {
                assert(fp[i].info.name != fp[j].info.name);
            } else if j < i {
                assert(fp[j].info.name != fp[i].info.name);
            }
        }
        assert(o[k] != o[l]);
        assert(p != q);
        if p == 0 {
            assert(origin_ok(s, tree, q - 1, o[q - 1]));
            assert(s.rel(q).parts.len() > 0);
        } else if q == 0 {
            assert(origin_ok(s, tree, p - 1, o[p - 1]));
            assert(s.rel(p).parts.len() > 0);
        } else if p < q {
            lemma_distinct(s, tree, o, p - 1, q - 1);
        } else {
            lemma_distinct(s, tree, o, q - 1, p - 1);
        }
    }
}

/// No directory is listed twice in the course of a scan.
pub proof fn law_scan_dirs_differ(s: ScanView, tree: Tree)
    requires
        scan_of(s, tree),
        names_differ(tree),
    ensures
        s.plan.dirs.no_duplicates(),
{
    let o = choose|o: Seq<(int, int)>| traced(s, tree, o);
    assert forall|k: int, l: int| 0 <= k < s.plan.dirs.len() && 0 <= l < s.plan.dirs.len() && k
        != l implies s.plan.dirs[k] != s.plan.dirs[l] by {
        if k < l {
            lemma_distinct(s, tree, o, k, l);
        } else {
            lemma_distinct(s, tree, o, l, k);
        }
    }
}

/// The directories of a finished scan form a tree: each is listed once, and
/// behind the one that it is in.
pub proof fn law_scan_gives_tree(s: ScanView, tree: Tree, p: PlanView)
    requires
        scan_of(s, tree),
        names_differ(tree),
        ordered(p, s.plan),
    ensures
        is_tree(p.dirs, s.top()),
{
    let o = choose|o: Seq<(int, int)>| traced(s, tree, o);
    let top = s.top();
    law_scan_dirs_differ(s, tree);
    law_by_depth(s.plan.dirs);
    assert forall|i: int| 0 <= i < p.dirs.len() implies #[trigger] p.dirs[i].parent() is Some && (
    p.dirs[i].parent()->0 == top || exists|j: int|
        0 <= j < i && #[trigger] p.dirs[j] == p.dirs[i].parent()->0) by {
        let x = p.dirs[i];
        assert(p.dirs.contains(x));
        assert(s.plan.dirs.contains(x));
        let k = choose|k: int| 0 <= k < s.plan.dirs.len() && s.plan.dirs[k] == x;
        assert(origin_ok(s, tree, k, o[k]));
        let (t, j) = o[k];
        let d = s.rel(t);
        assert(x.parts.drop_last() =~= d.parts);
        assert(x.parent() == Some(d));
        if t > 0 {
            assert(s.plan.dirs[t - 1] == d);
            assert(s.plan.dirs.contains(d));
            assert(p.dirs.contains(d));
            let m = choose|m: int| 0 <= m < p.dirs.len() && p.dirs[m] == d;
            if m >= i {
                assert(p.dirs[i].parts.len() <= p.dirs[m].parts.len());
            }
        }
    }
}

} // verus!
