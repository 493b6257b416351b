//! That what is copied is what there was.

use vstd::prelude::*;

use crate::copy::copied;
use crate::copy::counts_fit;
use crate::copy::leader;
use crate::copy::linked;
use crate::copy::CopyView;
use crate::copy::ProgressView;
use crate::copy::TaskView;
use crate::error::FaultKind;
use crate::link::unlinking;
use crate::link::LinkActionView;
use crate::names::copied_bytes;
use crate::names::fallen;
use crate::names::fallen_after;
use crate::names::kept_up;
use crate::names::names_kept;
use crate::names::names_leave;
use crate::path::is_name;
use crate::path::PathView;
use crate::path::Style;
use crate::plan::sum_sizes;
use crate::plan::FileView;
use crate::plan::PlanView;
use crate::remove::rels;
use crate::world::bare;
use crate::world::listed;
use crate::world::lists;
use crate::world::Contents;
use crate::world::Disk;
use crate::world::Node;

verus! {

/// Whether a path is made of names only, and so leads down from where it is followed.
pub open spec fn leads_down(style: Style, r: PathView) -> bool {
    &&& r.style == style
    &&& r.prefix is None
    &&& !r.rooted
    &&& forall|i: int| 0 <= i < r.parts.len() ==> is_name(#[trigger] r.parts[i])
}

/// What of all that is on the disk is at and below `root`.
pub open spec fn contents(disk: Map<PathView, Node>, root: PathView) -> Contents {
    Map::new(
        |r: PathView| leads_down(root.style, r) && disk.dom().contains(root.join(r)),
        |r: PathView| disk[root.join(r)],
    )
}

/// Whether nothing at or below one of two paths, as they are written, is at or below the
/// other.
pub open spec fn asunder(a: PathView, b: PathView) -> bool {
    !a.starts_with(b) && !b.starts_with(a)
}

pub proof fn lemma_join(root: PathView, r: PathView)
    requires
        leads_down(root.style, r),
    ensures
        root.join(r) == (PathView { parts: root.parts + r.parts, ..root }),
{
    if r.parts.len() > 0 {
        assert(is_name(r.parts[0]));
    }
}

pub proof fn lemma_join_differs(root: PathView, a: PathView, b: PathView)
    requires
        leads_down(root.style, a),
        leads_down(root.style, b),
        root.join(a) == root.join(b),
    ensures
        a == b,
{
    lemma_join(root, a);
    lemma_join(root, b);
    let n = root.parts.len() as int;
    assert((root.parts + a.parts).skip(n) =~= a.parts);
    assert((root.parts + b.parts).skip(n) =~= b.parts);
}

pub proof fn lemma_asunder(x: PathView, y: PathView, a: PathView, b: PathView)
    requires
        asunder(x, y),
        leads_down(x.style, a),
        leads_down(y.style, b),
    ensures
        x.join(a) != y.join(b),
{
    lemma_join(x, a);
    lemma_join(y, b);
    if x.join(a) == y.join(b) {
        let p = x.parts + a.parts;
        let q = y.parts + b.parts;
        if x.parts.len() <= y.parts.len() {
            assert forall|i: int| 0 <= i < x.parts.len() implies x.parts[i] == y.parts[i] by {
                assert(p[i] == q[i]);
            }
            assert(x.parts.is_prefix_of(y.parts)) by {
                assert(y.parts.subrange(0, x.parts.len() as int) =~= x.parts);
            }
        } else {
            assert forall|i: int| 0 <= i < y.parts.len() implies x.parts[i] == y.parts[i] by {
                assert(p[i] == q[i]);
            }
            assert(y.parts.is_prefix_of(x.parts)) by {
                assert(x.parts.subrange(0, y.parts.len() as int) =~= y.parts);
            }
        }
    }
}

/// All that a plan lists, but for the top.
pub open spec fn all_rels(plan: PlanView) -> Seq<PathView> {
    plan.dirs + rels(plan)
}

/// Whether the plan lists what is below `src`: each once, by a path that leads down, and
/// what it is. Files that are told to be one hold the same.
pub open spec fn tells(plan: PlanView, disk: Map<PathView, Node>, src: PathView) -> bool {
    &&& all_rels(plan).no_duplicates()
    &&& forall|i: int|
        0 <= i < all_rels(plan).len() ==> leads_down(src.style, #[trigger] all_rels(plan)[i])
            && all_rels(plan)[i].parts.len() > 0 && disk.dom().contains(
            src.join(all_rels(plan)[i]),
        )
    &&& forall|i: int|
        0 <= i < plan.dirs.len() ==> disk[src.join(#[trigger] plan.dirs[i])] == Node::Dir
    &&& forall|i: int|
        0 <= i < plan.symlinks.len() ==> disk[src.join((#[trigger] plan.symlinks[i]).rel)]
            == Node::Link(plan.symlinks[i].target)
    &&& forall|i: int|
        0 <= i < plan.files.len() ==> disk[src.join((#[trigger] plan.files[i]).rel)] is File
    &&& forall|i: int, j: int|
        0 <= i < plan.files.len() && 0 <= j < plan.files.len() && (
        #[trigger] plan.files[i]).hardlink_id is Some && plan.files[i].hardlink_id == (
        #[trigger] plan.files[j]).hardlink_id ==> disk[src.join(plan.files[i].rel)]
            == disk[src.join(plan.files[j].rel)]
}

/// Where a task makes something.
pub open spec fn place_of(task: TaskView) -> PathView {
    match task {
        TaskView::MakeDir { path } => path,
        TaskView::MakeLink { target, path } => path,
        TaskView::CopyFile { from, to, size } => to,
        TaskView::HardLink { existing, link } => link,
    }
}

/// What a task makes there.
pub open spec fn product(disk: Map<PathView, Node>, task: TaskView) -> Node {
    match task {
        TaskView::MakeDir { path } => Node::Dir,
        TaskView::MakeLink { target, path } => Node::Link(target),
        TaskView::CopyFile { from, to, size } => disk[from],
        TaskView::HardLink { existing, link } => disk[existing],
    }
}

/// Whether `after` may be on the disk once a task was tried. What went well made what it
/// is for, where nothing was. What did not changed nothing elsewhere; a further name that
/// could not be made is not there, and a directory that is said to be there is.
pub open spec fn task_leaves(
    disk: Map<PathView, Node>,
    task: TaskView,
    fault: Option<(FaultKind, Seq<char>)>,
    after: Map<PathView, Node>,
) -> bool {
    let at = place_of(task);
    match fault {
        None => !disk.dom().contains(at) && after == disk.insert(at, product(disk, task)),
        Some((kind, _)) => {
            &&& after.remove(at) == disk.remove(at)
            &&& task is HardLink ==> after == disk
            &&& task is MakeDir && kind == FaultKind::AlreadyExists ==> after == disk
                && disk.dom().contains(at)
        },
    }
}

/// The path, from the top, of what a ticket is for.
pub open spec fn ticket_rel(s: CopyView, t: int) -> PathView {
    if t < s.links_at() {
        s.plan.dirs[t]
    } else if t < s.files_at() {
        s.plan.symlinks[t - s.links_at()].rel
    } else {
        s.plan.files[s.file(t)].rel
    }
}

/// What the disk is to hold in the course of copying, where it held `first` when that
/// began: nothing was touched but what the tickets are for, and unless something failed,
/// those that came back made what there was, and the others nothing.
pub open spec fn copy_fits(
    s: CopyView,
    first: Map<PathView, Node>,
    now: Map<PathView, Node>,
) -> bool {
    &&& forall|p: PathView|
        (forall|t: int| 0 <= t < s.end() ==> #[trigger] s.dst.join(ticket_rel(s, t)) != p) ==> (
        #[trigger] now.dom().contains(p) <==> first.dom().contains(p)) && (first.dom().contains(p)
            ==> now[p] == first[p])
    &&& !s.progress.aborted ==> forall|t: int|
        0 <= t < s.end() ==> if t < s.next && !s.open[t] {
            now.dom().contains(#[trigger] s.dst.join(ticket_rel(s, t))) && now[s.dst.join(
                ticket_rel(s, t),
            )] == first[s.src.join(ticket_rel(s, t))]
        } else {
            !now.dom().contains(s.dst.join(ticket_rel(s, t)))
        }
}

/// What has to hold of the disk for copying to begin: the plan tells what is at the
/// source, and nothing is at the destination but an empty directory.
pub open spec fn copy_ready(s: CopyView, first: Map<PathView, Node>) -> bool {
    &&& asunder(s.src, s.dst)
    &&& s.src.style == s.dst.style
    &&& tells(s.plan, first, s.src)
    &&& first.dom().contains(s.src) && first[s.src] == Node::Dir
    &&& first.dom().contains(s.dst) && first[s.dst] == Node::Dir
    &&& forall|r: PathView|
        leads_down(s.dst.style, r) && r.parts.len() > 0 ==> !first.dom().contains(
            #[trigger] s.dst.join(r),
        )
}

/// The place of a file of the plan in the list of all that it lists.
proof fn lemma_file_index(plan: PlanView, i: int)
    requires
        0 <= i < plan.files.len(),
    ensures
        all_rels(plan)[plan.dirs.len() + i] == plan.files[i].rel,
        0 <= plan.dirs.len() + i < all_rels(plan).len(),
{
}

/// Where what a ticket is for stands in the list of all that is listed.
pub open spec fn ticket_index(s: CopyView, t: int) -> int {
    if t < s.links_at() {
        t
    } else if t < s.files_at() {
        s.plan.dirs.len() + s.plan.files.len() + (t - s.links_at())
    } else {
        s.plan.dirs.len() + s.file(t)
    }
}

pub proof fn lemma_ticket(s: CopyView, t: int)
    requires
        0 <= t < s.end(),
    ensures
        0 <= ticket_index(s, t) < all_rels(s.plan).len(),
        all_rels(s.plan)[ticket_index(s, t)] == ticket_rel(s, t),
        t >= s.files_at() ==> 0 <= s.file(t) < s.plan.files.len(),
        s.files_at() <= t < s.names_at() ==> leader(s.plan.files, s.file(t)) == s.file(t),
        t >= s.names_at() ==> leader(s.plan.files, s.file(t)) != s.file(t),
{
    if t >= s.files_at() {
        crate::copy::law_every_ticket_has_a_file(s.plan.files);
        if t < s.names_at() {
            let k = t - s.files_at();
            assert(0 <= copied(s.plan.files)[k] < s.plan.files.len());
        } else {
            let k = t - s.names_at();
            assert(0 <= linked(s.plan.files)[k] < s.plan.files.len());
        }
        lemma_file_index(s.plan, s.file(t));
    }
}

proof fn lemma_tickets_differ(s: CopyView, t: int, u: int)
    requires
        0 <= t < s.end(),
        0 <= u < s.end(),
        t != u,
        all_rels(s.plan).no_duplicates(),
    ensures
        ticket_rel(s, t) != ticket_rel(s, u),
{
    lemma_ticket(s, t);
    lemma_ticket(s, u);
    crate::copy::law_every_file_has_a_ticket(s.plan.files);
    if t >= s.files_at() && u >= s.files_at() {
        if t < s.names_at() && u < s.names_at() {
            assert(copied(s.plan.files)[t - s.files_at()] != copied(s.plan.files)[u
                - s.files_at()]);
        } else if t >= s.names_at() && u >= s.names_at() {
            assert(linked(s.plan.files)[t - s.names_at()] != linked(s.plan.files)[u
                - s.names_at()]);
        }
    }
    assert(ticket_index(s, t) != ticket_index(s, u));
    assert(all_rels(s.plan)[ticket_index(s, t)] != all_rels(s.plan)[ticket_index(s, u)]);
}

pub proof fn lemma_places_differ(s: CopyView, first: Map<PathView, Node>, t: int, u: int)
    requires
        copy_ready(s, first),
        0 <= t < s.end(),
        0 <= u < s.end(),
        t != u,
    ensures
        s.dst.join(ticket_rel(s, t)) != s.dst.join(ticket_rel(s, u)),
{
    lemma_ticket(s, t);
    lemma_ticket(s, u);
    lemma_tickets_differ(s, t, u);
    if s.dst.join(ticket_rel(s, t)) == s.dst.join(ticket_rel(s, u)) {
        lemma_join_differs(s.dst, ticket_rel(s, t), ticket_rel(s, u));
    }
}

proof fn lemma_source_stays(
    s: CopyView,
    first: Map<PathView, Node>,
    now: Map<PathView, Node>,
    r: PathView,
)
    requires
        copy_ready(s, first),
        copy_fits(s, first, now),
        leads_down(s.src.style, r),
    ensures
        now.dom().contains(s.src.join(r)) <==> first.dom().contains(s.src.join(r)),
        first.dom().contains(s.src.join(r)) ==> now[s.src.join(r)] == first[s.src.join(r)],
{
    assert forall|t: int| 0 <= t < s.end() implies #[trigger] s.dst.join(ticket_rel(s, t))
        != s.src.join(r) by {
        lemma_ticket(s, t);
        lemma_asunder(s.src, s.dst, r, ticket_rel(s, t));
    }
}

/// What a ticket makes is what there was at the source.
proof fn lemma_product(
    s: CopyView,
    first: Map<PathView, Node>,
    now: Map<PathView, Node>,
    t: int,
)
    requires
        s.sound(),
        copy_ready(s, first),
        copy_fits(s, first, now),
        !s.progress.aborted,
        0 <= t < s.end(),
        s.open[t],
    ensures
        place_of(s.task(t)) == s.dst.join(ticket_rel(s, t)),
        product(now, s.task(t)) == first[s.src.join(ticket_rel(s, t))],
{
    lemma_ticket(s, t);
    let r = ticket_rel(s, t);
    lemma_source_stays(s, first, now, r);
    if t < s.links_at() {
        assert(s.plan.dirs[t] == r);
    } else if t < s.files_at() {
        assert(s.plan.symlinks[t - s.links_at()].rel == r);
    } else {
        let i = s.file(t);
        assert(s.plan.files[i].rel == r);
        lemma_file_index(s.plan, i);
        if t >= s.names_at() && s.retry is None {
            let j = leader(s.plan.files, i);
            crate::copy::law_leader_is_copied(s.plan.files, i);
            crate::copy::law_every_ticket_has_a_file(s.plan.files);
            let k = choose|k: int| 0 <= k < copied(s.plan.files).len() && copied(s.plan.files)[k]
                == j;
            let u = s.files_at() + k;
            assert(s.file(u) == j);
            assert(ticket_rel(s, u) == s.plan.files[j].rel);
            assert(!s.open[u]) by {
                assert(t == s.next - 1);
                if s.open[u] {
                    assert(u == s.next - 1 || s.next <= s.names_at());
                }
            }
            assert(now[s.dst.join(ticket_rel(s, u))] == first[s.src.join(ticket_rel(s, u))]);
            assert(s.plan.files[j].hardlink_id == s.plan.files[i].hardlink_id);
            assert(s.plan.files[i].hardlink_id is Some);
        }
    }
}

/// Whatever comes of a ticket, what is copied is what there was, and nothing else on the
/// disk is touched.
pub proof fn law_copy_fills(
    s: CopyView,
    first: Map<PathView, Node>,
    now: Map<PathView, Node>,
    t: int,
    fault: Option<(FaultKind, Seq<char>)>,
    after: Map<PathView, Node>,
)
    requires
        s.sound(),
        copy_ready(s, first),
        copy_fits(s, first, now),
        0 <= t < s.end(),
        s.open[t],
        task_leaves(now, s.task(t), fault, after),
    ensures
        copy_fits(s.settled(t, fault), first, after),
{
    let b = s.settled(t, fault);
    lemma_ticket(s, t);
    let at = s.dst.join(ticket_rel(s, t));
    assert(place_of(s.task(t)) == at);
    assert forall|u: int| 0 <= u < s.end() implies #[trigger] ticket_rel(b, u) == ticket_rel(
        s,
        u,
    ) by {}
    assert forall|p: PathView|
        (forall|u: int| 0 <= u < b.end() ==> #[trigger] b.dst.join(ticket_rel(b, u)) != p) implies (
    #[trigger] after.dom().contains(p) <==> first.dom().contains(p)) && (first.dom().contains(p)
        ==> after[p] == first[p]) by {
        assert(b.dst.join(ticket_rel(b, t)) != p);
        assert forall|u: int| 0 <= u < s.end() implies #[trigger] s.dst.join(ticket_rel(s, u))
            != p by {
            assert(b.dst.join(ticket_rel(b, u)) != p);
        }
        assert(now.dom().contains(p) <==> first.dom().contains(p));
        assert(p != at);
        lemma_elsewhere(now, s.task(t), fault, after, p);
    }
    if !b.progress.aborted {
        lemma_product(s, first, now, t);
        assert forall|u: int| 0 <= u < b.end() implies if u < b.next && !b.open[u] {
            after.dom().contains(#[trigger] b.dst.join(ticket_rel(b, u))) && after[b.dst.join(
                ticket_rel(b, u),
            )] == first[b.src.join(ticket_rel(b, u))]
        } else {
            !after.dom().contains(b.dst.join(ticket_rel(b, u)))
        } by {
            let place = s.dst.join(ticket_rel(s, u));
            assert(now.dom().contains(place) <==> (u < s.next && !s.open[u]));
            if u != t {
                lemma_places_differ(s, first, t, u);
                lemma_elsewhere(now, s.task(t), fault, after, place);
            }
        }
    }
}

proof fn lemma_elsewhere(
    now: Map<PathView, Node>,
    task: TaskView,
    fault: Option<(FaultKind, Seq<char>)>,
    after: Map<PathView, Node>,
    p: PathView,
)
    requires
        task_leaves(now, task, fault, after),
        p != place_of(task),
    ensures
        after.dom().contains(p) <==> now.dom().contains(p),
        now.dom().contains(p) ==> after[p] == now[p],
{
    let at = place_of(task);
    if fault is Some {
        assert(after.remove(at).dom().contains(p) <==> now.remove(at).dom().contains(p));
        assert(after.remove(at).dom().contains(p) ==> after.remove(at)[p] == after[p]);
        assert(now.remove(at).dom().contains(p) ==> now.remove(at)[p] == now[p]);
    }
}

proof fn lemma_taken_fits(s: CopyView, first: Map<PathView, Node>, now: Map<PathView, Node>)
    requires
        s.sound(),
        copy_fits(s, first, now),
    ensures
        copy_fits(s.taken(), first, now),
{
    let a = s.taken();
    assert forall|p: PathView|
        (forall|t: int| 0 <= t < a.end() ==> #[trigger] a.dst.join(ticket_rel(a, t)) != p) implies (
    #[trigger] now.dom().contains(p) <==> first.dom().contains(p)) && (first.dom().contains(p)
        ==> now[p] == first[p]) by {
        assert forall|t: int| 0 <= t < s.end() implies #[trigger] s.dst.join(ticket_rel(s, t))
            != p by {
            assert(ticket_rel(a, t) == ticket_rel(s, t));
            assert(a.dst.join(ticket_rel(a, t)) != p);
        }
        assert(now.dom().contains(p) <==> first.dom().contains(p));
    }
    if !a.progress.aborted {
        assert forall|t: int| 0 <= t < a.end() implies if t < a.next && !a.open[t] {
            now.dom().contains(#[trigger] a.dst.join(ticket_rel(a, t))) && now[a.dst.join(
                ticket_rel(a, t),
            )] == first[a.src.join(ticket_rel(a, t))]
        } else {
            !now.dom().contains(a.dst.join(ticket_rel(a, t)))
        } by {
            assert(now.dom().contains(s.dst.join(ticket_rel(s, t))) <==> (t < s.next
                && !s.open[t]));
        }
    }
}

/// Copying begins with the disk as it has to be.
pub proof fn law_copy_fits_at_first(
    src: PathView,
    dst: PathView,
    plan: PlanView,
    first: Map<PathView, Node>,
)
    requires
        copy_ready(CopyView::start(src, dst, plan, ProgressView::empty()), first),
    ensures
        copy_fits(CopyView::start(src, dst, plan, ProgressView::empty()), first, first),
{
    let s = CopyView::start(src, dst, plan, ProgressView::empty());
    assert forall|t: int| 0 <= t < s.end() implies !first.dom().contains(
        #[trigger] s.dst.join(ticket_rel(s, t)),
    ) by {
        lemma_ticket(s, t);
    }
}

/// When copying ends without a failure, the copy is what was listed: every directory,
/// empty ones as well, every file with the same bytes and every link that says the same,
/// and nothing else. Where all that there was is listed, it is all that there was. The
/// source is as it was, and so is everything that is not in the copy.
pub proof fn law_copied_tree(s: CopyView, first: Map<PathView, Node>, now: Map<PathView, Node>)
    requires
        s.sound(),
        copy_ready(s, first),
        copy_fits(s, first, now),
        s.finished(),
        !s.progress.aborted,
    ensures
        contents(now, s.dst) == listed(contents(first, s.src), s.plan),
        (forall|r: PathView| #[trigger]
            contents(first, s.src).dom().contains(r) ==> lists(s.plan, r)) ==> contents(now, s.dst)
            == contents(first, s.src),
        contents(now, s.src) == contents(first, s.src),
        forall|p: PathView|
            (forall|r: PathView| leads_down(s.dst.style, r) ==> #[trigger] s.dst.join(r) != p)
                ==> (#[trigger] now.dom().contains(p) <==> first.dom().contains(p)) && (
            first.dom().contains(p) ==> now[p] == first[p]),
{
    let c = contents(first, s.src);
    let d = contents(now, s.dst);
    let l = listed(c, s.plan);
    assert forall|r: PathView| d.dom().contains(r) <==> l.dom().contains(r) by {
        if d.dom().contains(r) {
            lemma_copied_only(s, first, now, r);
        }
        if l.dom().contains(r) {
            lemma_copied_all(s, first, now, r);
        }
    }
    assert forall|r: PathView| d.dom().contains(r) implies d[r] == l[r] by {
        lemma_copied_only(s, first, now, r);
    }
    assert(d =~= l);
    if forall|r: PathView| #[trigger] c.dom().contains(r) ==> lists(s.plan, r) {
        assert(l =~= c);
    }
    assert(contents(now, s.src) =~= c) by {
        assert forall|r: PathView| leads_down(s.src.style, r) implies (now.dom().contains(
            #[trigger] s.src.join(r),
        ) <==> first.dom().contains(s.src.join(r))) && (first.dom().contains(s.src.join(r))
            ==> now[s.src.join(r)] == first[s.src.join(r)]) by {
            lemma_source_stays(s, first, now, r);
        }
    }
    assert forall|p: PathView|
        (forall|r: PathView| leads_down(s.dst.style, r) ==> #[trigger] s.dst.join(r) != p) implies (
    #[trigger] now.dom().contains(p) <==> first.dom().contains(p)) && (first.dom().contains(p)
        ==> now[p] == first[p]) by {
        assert forall|t: int| 0 <= t < s.end() implies #[trigger] s.dst.join(ticket_rel(s, t))
            != p by {
            lemma_ticket(s, t);
        }
    }
}

proof fn lemma_top(root: PathView, r: PathView)
    requires
        leads_down(root.style, r),
        r.parts.len() == 0,
    ensures
        root.join(r) == root,
        r.is_empty(),
{
    assert(root.parts + r.parts =~= root.parts);
}

proof fn lemma_copied_only(
    s: CopyView,
    first: Map<PathView, Node>,
    now: Map<PathView, Node>,
    r: PathView,
)
    requires
        s.sound(),
        copy_ready(s, first),
        copy_fits(s, first, now),
        s.finished(),
        !s.progress.aborted,
        contents(now, s.dst).dom().contains(r),
    ensures
        lists(s.plan, r),
        contents(first, s.src).dom().contains(r),
        now[s.dst.join(r)] == first[s.src.join(r)],
{
    let p = s.dst.join(r);
    if r.parts.len() == 0 {
        lemma_top(s.src, r);
        lemma_top(s.dst, r);
        assert forall|t: int| 0 <= t < s.end() implies #[trigger] s.dst.join(ticket_rel(s, t))
            != s.dst by {
            lemma_ticket(s, t);
            lemma_join(s.dst, ticket_rel(s, t));
            if s.dst.join(ticket_rel(s, t)) == s.dst {
                lemma_join_differs(s.dst, ticket_rel(s, t), r);
            }
        }
    } else {
        if forall|t: int| 0 <= t < s.end() ==> #[trigger] s.dst.join(ticket_rel(s, t)) != p {
            assert(!first.dom().contains(p));
            assert(false);
        }
        let t = choose|t: int|
            0 <= t < s.end() && #[trigger] s.dst.join(ticket_rel(s, t)) == p;
        lemma_ticket(s, t);
        lemma_join_differs(s.dst, ticket_rel(s, t), r);
        assert(!s.open[t]);
        let i = ticket_index(s, t);
        if i < s.plan.dirs.len() {
            assert(s.plan.dirs[i] == r);
        } else {
            assert(rels(s.plan)[i - s.plan.dirs.len()] == r);
        }
    }
}

proof fn lemma_copied_all(
    s: CopyView,
    first: Map<PathView, Node>,
    now: Map<PathView, Node>,
    r: PathView,
)
    requires
        s.sound(),
        copy_ready(s, first),
        copy_fits(s, first, now),
        s.finished(),
        !s.progress.aborted,
        lists(s.plan, r),
        contents(first, s.src).dom().contains(r),
    ensures
        contents(now, s.dst).dom().contains(r),
{
    if r.parts.len() == 0 {
        lemma_top(s.dst, r);
        assert forall|t: int| 0 <= t < s.end() implies #[trigger] s.dst.join(ticket_rel(s, t))
            != s.dst by {
            lemma_ticket(s, t);
            if s.dst.join(ticket_rel(s, t)) == s.dst {
                lemma_join_differs(s.dst, ticket_rel(s, t), r);
            }
        }
        assert(now.dom().contains(s.dst));
    } else if s.plan.dirs.contains(r) {
        let t = choose|t: int| 0 <= t < s.plan.dirs.len() && s.plan.dirs[t] == r;
        assert(ticket_rel(s, t) == r);
        assert(!s.open[t]);
        assert(now.dom().contains(s.dst.join(ticket_rel(s, t))));
    } else {
        let k = choose|k: int| 0 <= k < rels(s.plan).len() && rels(s.plan)[k] == r;
        if k < s.plan.files.len() {
            crate::copy::law_every_file_has_a_ticket(s.plan.files);
            assert(s.plan.files[k].rel == r);
            if copied(s.plan.files).contains(k) {
                let x = choose|x: int|
                    0 <= x < copied(s.plan.files).len() && copied(s.plan.files)[x] == k;
                let t = s.files_at() + x;
                assert(s.file(t) == k);
                assert(ticket_rel(s, t) == r);
                assert(!s.open[t]);
                assert(now.dom().contains(s.dst.join(ticket_rel(s, t))));
            } else {
                assert(linked(s.plan.files).contains(k));
                let x = choose|x: int|
                    0 <= x < linked(s.plan.files).len() && linked(s.plan.files)[x] == k;
                let t = s.names_at() + x;
                assert(s.file(t) == k);
                assert(ticket_rel(s, t) == r);
                assert(!s.open[t]);
                assert(now.dom().contains(s.dst.join(ticket_rel(s, t))));
            }
        } else {
            let t = s.links_at() + (k - s.plan.files.len());
            assert(ticket_rel(s, t) == r);
            assert(!s.open[t]);
            assert(now.dom().contains(s.dst.join(ticket_rel(s, t))));
        }
    }
}

/// Whether `next` is how far copying may have got, and `after` what may be on the disk,
/// one step behind `s` and `disk`: a ticket was handed out, or one came back.
pub open spec fn copies_on(
    s: CopyView,
    disk: Disk,
    next: CopyView,
    after: Disk,
) -> bool {
    ||| next == s.taken() && after == disk
    ||| exists|t: int, fault: Option<(FaultKind, Seq<char>)>|
        0 <= t < s.end() && s.open[t] && next == #[trigger] s.settled(t, fault) && task_leaves(
            disk.nodes,
            s.task(t),
            fault,
            after.nodes,
        ) && names_leave(disk.files, s.task(t), fault, after.files)
}

proof fn lemma_copies_on(
    s: CopyView,
    fallen: Set<int>,
    first: Disk,
    disk: Disk,
    next: CopyView,
    after: Disk,
)
    requires
        s.sound(),
        s.end() <= usize::MAX,
        counts_fit(s),
        copy_ready(s, first.nodes),
        copy_fits(s, first.nodes, disk.nodes),
        kept_up(s, fallen, first.files, disk.files),
        copies_on(s, disk, next, after),
    ensures
        next.sound(),
        counts_fit(next),
        copy_fits(next, first.nodes, after.nodes),
        kept_up(next, fallen_after(s, next, fallen), first.files, after.files),
        next.src == s.src,
        next.dst == s.dst,
        next.plan == s.plan,
{
    if next == s.taken() && after == disk {
        crate::copy::law_copy_sound(s, 0, None);
        crate::copy::law_copy_counts(s, 0, None);
        lemma_taken_fits(s, first.nodes, disk.nodes);
        crate::names::law_names_keep_up(
            s,
            fallen,
            first.nodes,
            first.files,
            disk.files,
            0,
            None,
            disk.files,
        );
    } else {
        let (t, fault) = choose|t: int, fault: Option<(FaultKind, Seq<char>)>|
            0 <= t < s.end() && s.open[t] && next == #[trigger] s.settled(t, fault) && task_leaves(
                disk.nodes,
                s.task(t),
                fault,
                after.nodes,
            ) && names_leave(disk.files, s.task(t), fault, after.files);
        crate::copy::law_copy_sound(s, t, fault);
        crate::copy::law_copy_counts(s, t, fault);
        law_copy_fills(s, first.nodes, disk.nodes, t, fault, after.nodes);
        crate::names::law_names_keep_up(
            s,
            fallen,
            first.nodes,
            first.files,
            disk.files,
            t,
            fault,
            after.files,
        );
    }
}

/// Whether the names below `dst`, and the bytes counted, are what copying is to come to.
pub open spec fn copies_names(
    files: Seq<FileView>,
    states: Seq<CopyView>,
    first: Disk,
    now: Disk,
    dst: PathView,
) -> bool {
    let fell = fallen(states, states.len() - 1);
    &&& names_kept(files, fell, first.files, now.files, dst)
    &&& forall|i: int| #[trigger]
        fell.contains(i) ==> 0 <= i < files.len() && leader(files, i) != i
    &&& (forall|i: int| 0 <= i < states.len() ==> (#[trigger] states[i]).retry is None) ==> fell
        == Set::<int>::empty()
    &&& sum_sizes(files) <= u64::MAX ==> states.last().progress.bytes_done == copied_bytes(
        files,
        fell,
    )
}

/// Whatever order tickets come back in: when copying a tree ends without a failure, the
/// copy is what was listed, with every file, and nothing else, and all files were
/// counted. Where all that there was is listed, the copy is the tree that was there. The
/// source is as it was.
///
/// Names that were told to be of one file are of one file in the copy, but for those that
/// could not be linked; no others are, and none is of a file that was there. The bytes
/// counted are those of every file once, and of each name that could not be linked.
pub proof fn law_every_copy(
    src: PathView,
    dst: PathView,
    plan: PlanView,
    states: Seq<CopyView>,
    disks: Seq<Disk>,
)
    requires
        plan.dirs.len() + plan.files.len() + plan.symlinks.len() <= usize::MAX,
        states.len() > 0,
        disks.len() == states.len(),
        states[0] == CopyView::start(src, dst, plan, ProgressView::empty()),
        copy_ready(states[0], disks[0].nodes),
        forall|i: int|
            #![trigger states[i]]
            0 <= i < states.len() - 1 ==> copies_on(
                states[i],
                disks[i],
                states[i + 1],
                disks[i + 1],
            ),
    ensures
        contents(disks.last().nodes, src) == contents(disks[0].nodes, src),
        states.last().finished() && !states.last().progress.aborted ==> {
            &&& contents(disks.last().nodes, dst) == listed(contents(disks[0].nodes, src), plan)
            &&& (forall|r: PathView| #[trigger]
                contents(disks[0].nodes, src).dom().contains(r) ==> lists(plan, r)) ==> contents(
                disks.last().nodes,
                dst,
            ) == contents(disks[0].nodes, src)
            &&& states.last().progress.files_done == plan.files.len()
            &&& copies_names(plan.files, states, disks[0], disks.last(), dst)
        },
{
    let n = states.len() - 1;
    crate::copy::law_copy_begins(src, dst, plan);
    law_copy_fits_at_first(src, dst, plan, disks[0].nodes);
    crate::names::law_names_begin(states[0], disks[0].files);
    crate::copy::law_every_file_has_a_ticket(plan.files);
    lemma_every_state(src, dst, plan, states, disks, n);
    let s = states[n];
    let first = disks[0].nodes;
    let now = disks[n].nodes;
    assert forall|r: PathView| leads_down(src.style, r) implies (now.dom().contains(
        #[trigger] src.join(r),
    ) <==> first.dom().contains(src.join(r))) && (first.dom().contains(src.join(r))
        ==> now[src.join(r)] == first[src.join(r)]) by {
        lemma_source_stays(s, first, now, r);
    }
    assert(contents(now, src) =~= contents(first, src));
    if s.finished() && !s.progress.aborted {
        law_copied_tree(s, first, now);
        crate::copy::law_copy_counts(s, 0, None);
        crate::names::law_names_end(s, fallen(states, n), first, disks[0].files, disks[n].files);
        if forall|i: int| 0 <= i < states.len() ==> (#[trigger] states[i]).retry is None {
            crate::names::law_none_fallen(states, n);
        }
    }
}

proof fn lemma_every_state(
    src: PathView,
    dst: PathView,
    plan: PlanView,
    states: Seq<CopyView>,
    disks: Seq<Disk>,
    n: int,
)
    requires
        0 <= n < states.len(),
        disks.len() == states.len(),
        states[0].end() <= usize::MAX,
        states[0].src == src,
        states[0].dst == dst,
        states[0].plan == plan,
        states[0].sound(),
        counts_fit(states[0]),
        copy_ready(states[0], disks[0].nodes),
        copy_fits(states[0], disks[0].nodes, disks[0].nodes),
        kept_up(states[0], Set::empty(), disks[0].files, disks[0].files),
        forall|i: int|
            #![trigger states[i]]
            0 <= i < states.len() - 1 ==> copies_on(
                states[i],
                disks[i],
                states[i + 1],
                disks[i + 1],
            ),
    ensures
        states[n].src == src,
        states[n].dst == dst,
        states[n].plan == plan,
        states[n].sound(),
        counts_fit(states[n]),
        copy_ready(states[n], disks[0].nodes),
        copy_fits(states[n], disks[0].nodes, disks[n].nodes),
        kept_up(states[n], fallen(states, n), disks[0].files, disks[n].files),
    decreases n,
{
    if n > 0 {
        lemma_every_state(src, dst, plan, states, disks, n - 1);
        assert(copies_on(states[n - 1], disks[n - 1], states[n - 1 + 1], disks[n - 1 + 1]));
        lemma_copies_on(
            states[n - 1],
            fallen(states, n - 1),
            disks[0],
            disks[n - 1],
            states[n],
            disks[n],
        );
    }
}

/// Whether `after` may be on the disk once the system was asked to remove what is at one
/// place, which went well or did not. A directory is never removed as a file, and only
/// where nothing is in it. What went wrong removed nothing.
pub open spec fn unlink_leaves(
    disk: Map<PathView, Node>,
    action: LinkActionView,
    worked: bool,
    after: Map<PathView, Node>,
) -> bool {
    match action {
        LinkActionView::RemoveDir { at } => if worked {
            &&& disk.dom().contains(at) && !(disk[at] is File)
            &&& disk[at] is Dir ==> bare(contents(disk, at))
            &&& after == disk.remove(at)
        } else {
            after == disk
        },
        LinkActionView::RemoveFile { at } => if worked {
            &&& disk.dom().contains(at) && !(disk[at] is Dir)
            &&& after == disk.remove(at)
        } else {
            after == disk
        },
        _ => false,
    }
}

/// Removing a link takes away that link alone: all that is at and below what it led to
/// is as it was, and so is everything else. Where it fails, all is as it was, the link as
/// well. On Unix it fails where a directory is in the place of the link.
pub proof fn law_removing_leaves_target(
    disk: Map<PathView, Node>,
    link: PathView,
    target: PathView,
    worked: bool,
    after: Map<PathView, Node>,
)
    requires
        asunder(link, target),
        unlink_leaves(disk, unlinking(link), worked, after),
    ensures
        contents(after, target) == contents(disk, target),
        worked ==> !after.dom().contains(link),
        !worked ==> after == disk,
        link.style == Style::Unix && disk.dom().contains(link) && disk[link] is Dir ==> !worked,
        forall|p: PathView|
            p != link ==> (#[trigger] after.dom().contains(p) <==> disk.dom().contains(p)) && (
            disk.dom().contains(p) ==> after[p] == disk[p]),
{
    let top = PathView { style: link.style, prefix: None, rooted: false, parts: Seq::empty() };
    lemma_top(link, top);
    assert forall|r: PathView| leads_down(target.style, r) implies #[trigger] target.join(r)
        != link by {
        lemma_asunder(link, target, top, r);
    }
    assert(contents(after, target) =~= contents(disk, target));
}

} // verus!
