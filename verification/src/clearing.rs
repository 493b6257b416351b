//! That what is removed is what is listed, and that the counts say so.

use vstd::prelude::*;

use crate::error::FaultKind;
use crate::path::PathView;
use crate::plan::PlanView;
use crate::remove::all_dirs;
use crate::remove::home;
use crate::remove::inside;
use crate::remove::is_gone;
use crate::remove::numbered;
use crate::remove::rels;
use crate::remove::removable;
use crate::remove::removal_start;
use crate::remove::steps_for;
use crate::remove::top_of;
use crate::remove::RemovalView;
use crate::remove::RemoveProgressView;
use crate::remove::StepView;
use crate::replica::all_rels;
use crate::replica::contents;
use crate::replica::leads_down;
use crate::world::lists;
use crate::world::within;
use crate::world::Contents;
use crate::world::Node;

verus! {

/// Whether a path, absolute or relative, names a place of its own: all do but the empty
/// one, which names nothing, and a drive alone, which names what is current there.
pub open spec fn is_place(p: PathView) -> bool {
    p.rooted || p.parts.len() > 0
}

/// What is on the disk once each of `steps` was tried.
pub open spec fn cleared(
    disk: Map<PathView, Node>,
    steps: Seq<StepView>,
    faults: Seq<Option<(FaultKind, Seq<char>)>>,
) -> Map<PathView, Node>
    decreases steps.len(),
{
    if steps.len() == 0 {
        disk
    } else {
        let before = cleared(disk, steps.drop_last(), faults.drop_last());
        if faults.last() is None {
            before.remove(steps.last().path)
        } else {
            before
        }
    }
}

/// Whether this may come of removing one thing: it goes well only where the thing is
/// there and has nothing below it, it is told to be gone only where it is, and what cannot
/// be removed is there still.
pub open spec fn may_answer(
    disk: Map<PathView, Node>,
    step: StepView,
    fault: Option<(FaultKind, Seq<char>)>,
) -> bool {
    match fault {
        None => disk.dom().contains(step.path) && forall|p: PathView| #[trigger]
            disk.dom().contains(p) && p.starts_with(step.path) ==> p == step.path,
        Some((kind, _)) => disk.dom().contains(step.path) <==> kind != FaultKind::NotFound,
    }
}

/// Whether this may come of trying each of `steps`.
pub open spec fn may_clear(
    disk: Map<PathView, Node>,
    steps: Seq<StepView>,
    faults: Seq<Option<(FaultKind, Seq<char>)>>,
) -> bool
    decreases steps.len(),
{
    steps.len() == faults.len() && (steps.len() > 0 ==> may_clear(
        disk,
        steps.drop_last(),
        faults.drop_last(),
    ) && may_answer(
        cleared(disk, steps.drop_last(), faults.drop_last()),
        steps.last(),
        faults.last(),
    ))
}

/// Whether everything below `root` is in something that is there.
pub open spec fn hangs_together(disk: Map<PathView, Node>, root: PathView) -> bool {
    forall|p: PathView| #[trigger]
        disk.dom().contains(p) && p.starts_with(root) && p != root ==> (p.parent() matches Some(q)
            && disk.dom().contains(q))
}

/// Whether a plan lists each thing once, by a path that leads down, and with each file
/// and link the directory that it is in.
pub open spec fn well_listed(plan: PlanView, root: PathView) -> bool {
    let all = all_dirs(plan.dirs, top_of(root.style));
    &&& removable(plan.dirs, top_of(root.style))
    &&& all_rels(plan).no_duplicates()
    &&& forall|i: int|
        0 <= i < all_rels(plan).len() ==> leads_down(root.style, #[trigger] all_rels(plan)[i])
            && all_rels(plan)[i].parts.len() > 0
    &&& forall|i: int|
        0 <= i < rels(plan).len() ==> all.contains(
            home(#[trigger] rels(plan)[i], top_of(root.style)),
        )
}

/// Whether what is at `p` is one of the things that a plan lists below `root`, or `root`.
pub open spec fn is_meant(root: PathView, plan: PlanView, p: PathView) -> bool {
    exists|r: PathView|
        leads_down(root.style, r) && lists(plan, r) && #[trigger] root.join(r) == p
}

/// How many of the first `n` directories were dealt with.
spec fn dirs_tried(done: Seq<bool>, n: int) -> int
    decreases n,
{
    if n <= 0 {
        0
    } else {
        dirs_tried(done, n - 1) + if done[n - 1] {
            1int
        } else {
            0int
        }
    }
}

/// How many things were tried in the first `n` directories.
spec fn steps_tried(done: Seq<bool>, steps: Seq<Seq<StepView>>, n: int) -> int
    decreases n,
{
    if n <= 0 {
        0
    } else {
        steps_tried(done, steps, n - 1) + if done[n - 1] {
            steps[n - 1].len() as int
        } else {
            0int
        }
    }
}

proof fn lemma_tried(done: Seq<bool>, steps: Seq<Seq<StepView>>, k: int, n: int)
    requires
        0 <= k < done.len(),
        done.len() == steps.len(),
        0 <= n <= done.len(),
        !done[k],
    ensures
        dirs_tried(done.update(k, true), n) == dirs_tried(done, n) + if k < n {
            1int
        } else {
            0int
        },
        steps_tried(done.update(k, true), steps, n) == steps_tried(done, steps, n) + if k < n {
            steps[k].len() as int
        } else {
            0int
        },
    decreases n,
{
    if n > 0 {
        lemma_tried(done, steps, k, n - 1);
    }
}

proof fn lemma_tried_bounds(done: Seq<bool>, steps: Seq<Seq<StepView>>, n: int)
    requires
        done.len() == steps.len(),
        0 <= n <= done.len(),
        forall|i: int| 0 <= i < steps.len() ==> (#[trigger] steps[i]).len() >= 1,
    ensures
        0 <= dirs_tried(done, n) <= steps_tried(done, steps, n),
        steps_tried(done, steps, n) <= steps_in_all(steps, n),
        (forall|i: int| 0 <= i < n ==> #[trigger] done[i]) ==> dirs_tried(done, n) == n
            && steps_tried(done, steps, n) == steps_in_all(steps, n),
        (forall|i: int| 0 <= i < n ==> !#[trigger] done[i]) ==> dirs_tried(done, n) == 0
            && steps_tried(done, steps, n) == 0,
    decreases n,
{
    if n > 0 {
        lemma_tried_bounds(done, steps, n - 1);
        assert(steps[n - 1].len() >= 1);
    }
}

/// How many things there are to try in the first `n` directories.
spec fn steps_in_all(steps: Seq<Seq<StepView>>, n: int) -> int
    decreases n,
{
    if n <= 0 {
        0
    } else {
        steps_in_all(steps, n - 1) + steps[n - 1].len()
    }
}

/// How many files and links are in the first `n` of `all`.
spec fn inside_in_all(
    root: PathView,
    xs: Seq<PathView>,
    all: Seq<PathView>,
    top: PathView,
    n: int,
) -> int
    decreases n,
{
    if n <= 0 {
        0
    } else {
        inside_in_all(root, xs, all, top, n - 1) + inside(root, xs, all[n - 1], top).len()
    }
}

proof fn lemma_inside_one(
    root: PathView,
    xs: Seq<PathView>,
    all: Seq<PathView>,
    top: PathView,
    k: int,
    n: int,
)
    requires
        xs.len() > 0,
        0 <= k < all.len(),
        all[k] == home(xs.last(), top),
        all.no_duplicates(),
        0 <= n <= all.len(),
    ensures
        inside_in_all(root, xs, all, top, n) == inside_in_all(root, xs.drop_last(), all, top, n)
            + if k < n {
            1int
        } else {
            0int
        },
    decreases n,
{
    if n > 0 {
        lemma_inside_one(root, xs, all, top, k, n - 1);
        if n - 1 != k {
            assert(all[n - 1] != all[k]);
        }
    }
}

proof fn lemma_inside_sum(root: PathView, xs: Seq<PathView>, all: Seq<PathView>, top: PathView)
    requires
        all.no_duplicates(),
        forall|i: int| 0 <= i < xs.len() ==> all.contains(home(#[trigger] xs[i], top)),
    ensures
        inside_in_all(root, xs, all, top, all.len() as int) == xs.len(),
    decreases xs.len(),
{
    let n = all.len() as int;
    if xs.len() == 0 {
        lemma_inside_none(root, xs, all, top, n);
    } else {
        let rest = xs.drop_last();
        assert forall|i: int| 0 <= i < rest.len() implies all.contains(
            home(#[trigger] rest[i], top),
        ) by {
            assert(rest[i] == xs[i]);
        }
        lemma_inside_sum(root, rest, all, top);
        assert(all.contains(home(xs[xs.len() - 1], top)));
        let k = choose|k: int| 0 <= k < all.len() && all[k] == home(xs.last(), top);
        lemma_inside_one(root, xs, all, top, k, n);
    }
}

proof fn lemma_inside_none(
    root: PathView,
    xs: Seq<PathView>,
    all: Seq<PathView>,
    top: PathView,
    n: int,
)
    requires
        xs.len() == 0,
    ensures
        inside_in_all(root, xs, all, top, n) == 0,
    decreases n,
{
    if n > 0 {
        lemma_inside_none(root, xs, all, top, n - 1);
    }
}

proof fn lemma_steps_sum(root: PathView, plan: PlanView, parent: Seq<int>, n: int)
    requires
        0 <= n <= all_dirs(plan.dirs, top_of(root.style)).len(),
    ensures
        steps_in_all(removal_start(root, plan, parent).steps, n) == inside_in_all(
            root,
            rels(plan),
            all_dirs(plan.dirs, top_of(root.style)),
            top_of(root.style),
            n,
        ) + n,
    decreases n,
{
    if n > 0 {
        lemma_steps_sum(root, plan, parent, n - 1);
    }
}

/// How many of `steps` are for directories.
spec fn dir_steps(steps: Seq<StepView>) -> int
    decreases steps.len(),
{
    if steps.len() == 0 {
        0
    } else {
        dir_steps(steps.drop_last()) + if steps.last().is_dir {
            1int
        } else {
            0int
        }
    }
}

proof fn lemma_dir_steps(root: PathView, xs: Seq<PathView>, d: PathView, top: PathView)
    ensures
        dir_steps(inside(root, xs, d, top)) == 0,
    decreases xs.len(),
{
    if xs.len() > 0 {
        lemma_dir_steps(root, xs.drop_last(), d, top);
        let r = inside(root, xs, d, top);
        let a = inside(root, xs.drop_last(), d, top);
        if home(xs.last(), top) == d {
            assert(r.drop_last() =~= a);
        }
    }
}

proof fn lemma_noted_counts(
    p: RemoveProgressView,
    steps: Seq<StepView>,
    faults: Seq<Option<(FaultKind, Seq<char>)>>,
)
    requires
        steps.len() == faults.len(),
        p.dirs_done + p.files_done + steps.len() <= usize::MAX,
    ensures
        ({
            let q = p.noted_all(steps, faults);
            &&& q.dirs_done + q.files_done + q.failures.len() == p.dirs_done + p.files_done
                + p.failures.len() + steps.len()
            &&& q.failures.len() >= p.failures.len()
            &&& q.failures.len() == p.failures.len() ==> q.dirs_done == p.dirs_done + dir_steps(
                steps,
            ) && q.files_done == p.files_done + steps.len() - dir_steps(steps)
            &&& q.dirs_done + q.files_done <= p.dirs_done + p.files_done + steps.len()
        }),
    decreases steps.len(),
{
    if steps.len() > 0 {
        lemma_noted_counts(p, steps.drop_last(), faults.drop_last());
    }
}

/// Whether two of the things to remove are never at one place.
spec fn places_differ(steps: Seq<Seq<StepView>>) -> bool {
    forall|k: int, i: int, l: int, j: int|
        0 <= k < steps.len() && 0 <= i < steps[k].len() && 0 <= l < steps.len() && 0 <= j
            < steps[l].len() && (k != l || i != j) ==> (#[trigger] steps[k][i]).path != (
        #[trigger] steps[l][j]).path
}

/// What removing is to have done in its course: the counts say how much was tried, and
/// unless something failed, all that was tried is gone; if something did, something that
/// was tried is there still.
spec fn clears(r: RemovalView, root: PathView, disk: Map<PathView, Node>) -> bool {
    let n = r.steps.len() as int;
    &&& r.broker.sound()
    &&& r.steps.len() == r.broker.done.len()
    &&& r.progress.dirs_done + r.progress.files_done + r.progress.failures.len() == steps_tried(
        r.broker.done,
        r.steps,
        n,
    )
    &&& r.progress.failures.len() == 0 ==> r.progress.dirs_done == dirs_tried(r.broker.done, n)
    &&& hangs_together(disk, root)
    &&& r.progress.failures.len() == 0 ==> forall|k: int, i: int|
        0 <= k < n && r.broker.done[k] && 0 <= i < r.steps[k].len() ==> !disk.dom().contains(
            (#[trigger] r.steps[k][i]).path,
        )
    &&& r.progress.failures.len() > 0 ==> exists|k: int, i: int|
        0 <= k < n && r.broker.done[k] && 0 <= i < r.steps[k].len() && disk.dom().contains(
            (#[trigger] r.steps[k][i]).path,
        )
}

proof fn lemma_cleared_shrinks(
    disk: Map<PathView, Node>,
    steps: Seq<StepView>,
    faults: Seq<Option<(FaultKind, Seq<char>)>>,
    root: PathView,
)
    requires
        hangs_together(disk, root),
        may_clear(disk, steps, faults),
    ensures
        hangs_together(cleared(disk, steps, faults), root),
        within(cleared(disk, steps, faults), disk),
        forall|p: PathView|
            disk.dom().contains(p) && (forall|i: int|
                0 <= i < steps.len() ==> (#[trigger] steps[i]).path != p)
                ==> #[trigger] cleared(disk, steps, faults).dom().contains(p),
    decreases steps.len(),
{
    if steps.len() > 0 {
        let a = steps.drop_last();
        let b = faults.drop_last();
        lemma_cleared_shrinks(disk, a, b, root);
        let before = cleared(disk, a, b);
        let after = cleared(disk, steps, faults);
        let at = steps.last().path;
        assert forall|p: PathView| #[trigger]
            after.dom().contains(p) && p.starts_with(root) && p != root implies (
        p.parent() matches Some(q) && after.dom().contains(q)) by {
            assert(before.dom().contains(p));
            let q = p.parent()->0;
            assert(before.dom().contains(q));
            if faults.last() is None && q == at {
                assert(p.parts.subrange(0, q.parts.len() as int) =~= q.parts);
                assert(p.starts_with(at));
                assert(p == at);
            }
        }
        assert forall|p: PathView|
            disk.dom().contains(p) && (forall|i: int|
                0 <= i < steps.len() ==> (#[trigger] steps[i]).path != p) implies #[trigger] after.dom().contains(
        p) by {
            assert(steps[steps.len() - 1].path != p);
            assert forall|i: int| 0 <= i < a.len() implies (#[trigger] a[i]).path != p by {
                assert(steps[i].path != p);
            }
            assert(before.dom().contains(p));
        }
    }
}

proof fn lemma_cleared_tells(
    disk: Map<PathView, Node>,
    steps: Seq<StepView>,
    faults: Seq<Option<(FaultKind, Seq<char>)>>,
    root: PathView,
)
    requires
        hangs_together(disk, root),
        may_clear(disk, steps, faults),
        forall|i: int, j: int|
            0 <= i < steps.len() && 0 <= j < steps.len() && i != j ==> (#[trigger] steps[i]).path != (
            #[trigger] steps[j]).path,
    ensures
        forall|i: int|
            0 <= i < steps.len() ==> (cleared(disk, steps, faults).dom().contains(
                (#[trigger] steps[i]).path,
            ) <==> !is_gone(faults[i])),
    decreases steps.len(),
{
    if steps.len() > 0 {
        let a = steps.drop_last();
        let b = faults.drop_last();
        assert forall|i: int, j: int|
            0 <= i < a.len() && 0 <= j < a.len() && i != j implies (#[trigger] a[i]).path != (
        #[trigger] a[j]).path by {
            assert(steps[i].path != steps[j].path);
        }
        lemma_cleared_tells(disk, a, b, root);
        let before = cleared(disk, a, b);
        let last = steps.len() - 1;
        assert forall|i: int| 0 <= i < steps.len() implies (cleared(
            disk,
            steps,
            faults,
        ).dom().contains((#[trigger] steps[i]).path) <==> !is_gone(faults[i])) by {
            if i < last {
                assert(a[i] == steps[i]);
                assert(b[i] == faults[i]);
                assert(steps[i].path != steps[last].path);
            }
        }
    }
}

proof fn lemma_settled_clears(
    r: RemovalView,
    root: PathView,
    disk: Map<PathView, Node>,
    dir: int,
    faults: Seq<Option<(FaultKind, Seq<char>)>>,
)
    requires
        clears(r, root, disk),
        places_differ(r.steps),
        forall|k: int| 0 <= k < r.steps.len() ==> dir_steps(#[trigger] r.steps[k]) == 1,
        forall|k: int| 0 <= k < r.steps.len() ==> (#[trigger] r.steps[k]).len() >= 1,
        steps_in_all(r.steps, r.steps.len() as int) <= usize::MAX,
        0 <= dir < r.steps.len(),
        r.broker.is_out(dir),
        !r.broker.done[dir],
        may_clear(disk, r.steps[dir], faults),
    ensures
        clears(r.settled(dir, faults), root, cleared(disk, r.steps[dir], faults)),
{
    let n = r.steps.len() as int;
    let steps = r.steps[dir];
    let next = r.settled(dir, faults);
    let after = cleared(disk, steps, faults);
    crate::remove::law_broker_sound(r.broker, dir);
    assert(next.broker.done == r.broker.done.update(dir, true));
    lemma_tried(r.broker.done, r.steps, dir, n);
    lemma_tried_bounds(next.broker.done, r.steps, n);
    lemma_noted_counts(r.progress, steps, faults);
    crate::remove::law_failures_tell(r.progress, steps, faults);
    lemma_cleared_shrinks(disk, steps, faults, root);
    assert forall|i: int, j: int|
        0 <= i < steps.len() && 0 <= j < steps.len() && i != j implies (#[trigger] steps[i]).path != (
    #[trigger] steps[j]).path by {
        assert(r.steps[dir][i].path != r.steps[dir][j].path);
    }
    lemma_cleared_tells(disk, steps, faults, root);
    if next.progress.failures.len() == 0 {
        assert forall|k: int, i: int|
            0 <= k < n && next.broker.done[k] && 0 <= i < next.steps[k].len() implies !after.dom().contains(
        (#[trigger] next.steps[k][i]).path) by {
            if k == dir {
                assert(is_gone(faults[i]));
                assert(steps[i].path == next.steps[k][i].path);
            } else {
                assert(!disk.dom().contains(r.steps[k][i].path));
            }
        }
    } else if r.progress.failures.len() > 0 {
        let (k, i) = choose|k: int, i: int|
            0 <= k < n && r.broker.done[k] && 0 <= i < r.steps[k].len() && disk.dom().contains(
                (#[trigger] r.steps[k][i]).path,
            );
        let p = r.steps[k][i].path;
        assert forall|j: int| 0 <= j < steps.len() implies (#[trigger] steps[j]).path != p by {
            assert(r.steps[dir][j].path != r.steps[k][i].path);
        }
        assert(after.dom().contains(next.steps[k][i].path));
        assert(next.broker.done[k]);
    } else {
        let i = choose|i: int| 0 <= i < faults.len() && !is_gone(#[trigger] faults[i]);
        assert(after.dom().contains(steps[i].path));
        assert(next.steps[dir][i] == steps[i]);
        assert(next.broker.done[dir]);
    }
}

proof fn lemma_inside_rel(
    root: PathView,
    xs: Seq<PathView>,
    d: PathView,
    top: PathView,
    j: int,
) -> (m: int)
    requires
        0 <= j < inside(root, xs, d, top).len(),
    ensures
        0 <= m < xs.len(),
        home(xs[m], top) == d,
        inside(root, xs, d, top)[j] == (StepView { path: root.join(xs[m]), is_dir: false }),
    decreases xs.len(),
{
    let rest = inside(root, xs.drop_last(), d, top);
    if j < rest.len() {
        let m = lemma_inside_rel(root, xs.drop_last(), d, top, j);
        assert(xs.drop_last()[m] == xs[m]);
        m
    } else {
        xs.len() - 1
    }
}

proof fn lemma_inside_rels_differ(
    root: PathView,
    xs: Seq<PathView>,
    d: PathView,
    top: PathView,
    i: int,
    j: int,
)
    requires
        0 <= i < j < inside(root, xs, d, top).len(),
    ensures
        exists|a: int, b: int|
            0 <= a < b < xs.len() && inside(root, xs, d, top)[i].path == root.join(
                #[trigger] xs[a],
            ) && inside(root, xs, d, top)[j].path == root.join(#[trigger] xs[b]),
    decreases xs.len(),
{
    let rest = inside(root, xs.drop_last(), d, top);
    if j < rest.len() {
        lemma_inside_rels_differ(root, xs.drop_last(), d, top, i, j);
        let ys = xs.drop_last();
        let (a, b) = choose|a: int, b: int|
            0 <= a < b < ys.len() && rest[i].path == root.join(#[trigger] ys[a]) && rest[j].path
                == root.join(#[trigger] ys[b]);
        assert(xs[a] == ys[a] && xs[b] == ys[b]);
    } else {
        let a = lemma_inside_rel(root, xs.drop_last(), d, top, i);
        assert(xs.drop_last()[a] == xs[a]);
        let b = xs.len() - 1;
        assert(inside(root, xs, d, top)[j].path == root.join(xs[b]));
    }
}

/// The path, from the top, of what step `i` of directory `k` removes.
proof fn lemma_step_rel(root: PathView, plan: PlanView, parent: Seq<int>, k: int, i: int) -> (m: int)
    requires
        well_listed(plan, root),
        0 <= k < removal_start(root, plan, parent).steps.len(),
        0 <= i < removal_start(root, plan, parent).steps[k].len(),
    ensures
        -1 <= m < all_rels(plan).len(),
        m >= 0 ==> removal_start(root, plan, parent).steps[k][i].path == root.join(
            all_rels(plan)[m],
        ),
        m == -1 ==> removal_start(root, plan, parent).steps[k][i].path == root.join(
            top_of(root.style),
        ) && k == 0 && i == removal_start(root, plan, parent).steps[k].len() - 1,
        i == removal_start(root, plan, parent).steps[k].len() - 1 ==> m == k - 1,
        i < removal_start(root, plan, parent).steps[k].len() - 1 ==> m >= plan.dirs.len() && home(
            all_rels(plan)[m],
            top_of(root.style),
        ) == all_dirs(plan.dirs, top_of(root.style))[k],
{
    let top = top_of(root.style);
    let all = all_dirs(plan.dirs, top);
    let steps = steps_for(root, plan, all[k], top);
    assert(removal_start(root, plan, parent).steps[k] == steps);
    if i == steps.len() - 1 {
        if k > 0 {
            assert(all_rels(plan)[k - 1] == all[k]);
        }
        k - 1
    } else {
        let x = lemma_inside_rel(root, rels(plan), all[k], top, i);
        assert(all_rels(plan)[plan.dirs.len() + x] == rels(plan)[x]);
        plan.dirs.len() + x
    }
}

proof fn lemma_rel_places(root: PathView, plan: PlanView, a: int, b: int)
    requires
        is_place(root),
        well_listed(plan, root),
        -1 <= a < all_rels(plan).len(),
        -1 <= b < all_rels(plan).len(),
        a != b,
    ensures
        root.join(
            if a >= 0 {
                all_rels(plan)[a]
            } else {
                top_of(root.style)
            },
        ) != root.join(
            if b >= 0 {
                all_rels(plan)[b]
            } else {
                top_of(root.style)
            },
        ),
{
    let x = if a >= 0 {
        all_rels(plan)[a]
    } else {
        top_of(root.style)
    };
    let y = if b >= 0 {
        all_rels(plan)[b]
    } else {
        top_of(root.style)
    };
    if a >= 0 {
        assert(leads_down(root.style, all_rels(plan)[a]));
    }
    if b >= 0 {
        assert(leads_down(root.style, all_rels(plan)[b]));
    }
    if root.join(x) == root.join(y) {
        crate::replica::lemma_join_differs(root, x, y);
    }
}

proof fn lemma_places_differ(root: PathView, plan: PlanView, parent: Seq<int>)
    requires
        is_place(root),
        well_listed(plan, root),
    ensures
        places_differ(removal_start(root, plan, parent).steps),
{
    let steps = removal_start(root, plan, parent).steps;
    let top = top_of(root.style);
    let all = all_dirs(plan.dirs, top);
    crate::remove::lemma_all_distinct(plan.dirs, top);
    assert forall|k: int, i: int, l: int, j: int|
        0 <= k < steps.len() && 0 <= i < steps[k].len() && 0 <= l < steps.len() && 0 <= j
            < steps[l].len() && (k != l || i != j) implies (#[trigger] steps[k][i]).path != (
    #[trigger] steps[l][j]).path by {
        let a = lemma_step_rel(root, plan, parent, k, i);
        let b = lemma_step_rel(root, plan, parent, l, j);
        if a != b {
            lemma_rel_places(root, plan, a, b);
        } else if k != l {
            assert(all[k] != all[l]);
        } else {
            let (u, v) = if i < j {
                (i, j)
            } else {
                (j, i)
            };
            lemma_inside_rels_differ(root, rels(plan), all[k], top, u, v);
            let ins = inside(root, rels(plan), all[k], top);
            let (x, y) = choose|x: int, y: int|
                0 <= x < y < rels(plan).len() && ins[u].path == root.join(#[trigger] rels(plan)[x])
                    && ins[v].path == root.join(#[trigger] rels(plan)[y]);
            assert(steps[k][u] == ins[u] && steps[k][v] == ins[v]);
            let d = plan.dirs.len() as int;
            assert(all_rels(plan)[d + x] == rels(plan)[x]);
            assert(all_rels(plan)[d + y] == rels(plan)[y]);
            lemma_rel_places(root, plan, d + x, d + y);
        }
    }
}

/// Whether `next` is how far removal may have got, and `after` what may be on the disk,
/// one step behind `r` and `disk`: a directory was handed out, or one came back.
pub open spec fn clears_on(
    r: RemovalView,
    disk: Map<PathView, Node>,
    next: RemovalView,
    after: Map<PathView, Node>,
) -> bool {
    ||| next == (RemovalView { broker: r.broker.taken(), ..r }) && after == disk
    ||| exists|dir: int, faults: Seq<Option<(FaultKind, Seq<char>)>>|
        0 <= dir < r.steps.len() && r.broker.is_out(dir) && !r.broker.done[dir] && may_clear(
            disk,
            r.steps[dir],
            faults,
        ) && next == #[trigger] r.settled(dir, faults) && after == cleared(
            disk,
            r.steps[dir],
            faults,
        )
}

proof fn lemma_root_holds(disk: Map<PathView, Node>, root: PathView, p: PathView)
    requires
        is_place(root),
        hangs_together(disk, root),
        disk.dom().contains(p),
        p.starts_with(root),
    ensures
        disk.dom().contains(root),
    decreases p.parts.len(),
{
    if p != root {
        let q = p.parent()->0;
        assert(q.starts_with(root)) by {
            assert(root.parts.len() <= p.parts.len());
            if root.parts.len() == p.parts.len() {
                assert(p.parts.subrange(0, root.parts.len() as int) =~= p.parts);
                assert(p =~= root);
            }
            assert(q.parts.subrange(0, root.parts.len() as int) =~= p.parts.subrange(
                0,
                root.parts.len() as int,
            ));
        }
        lemma_root_holds(disk, root, q);
    }
}

proof fn lemma_every_clearing(
    root: PathView,
    plan: PlanView,
    parent: Seq<int>,
    states: Seq<RemovalView>,
    disks: Seq<Map<PathView, Node>>,
    n: int,
)
    requires
        is_place(root),
        well_listed(plan, root),
        steps_in_all(states[0].steps, states[0].steps.len() as int) <= usize::MAX,
        numbered(all_dirs(plan.dirs, top_of(root.style)), parent),
        0 <= n < states.len(),
        disks.len() == states.len(),
        states[0] == removal_start(root, plan, parent),
        hangs_together(disks[0], root),
        forall|i: int|
            #![trigger states[i]]
            0 <= i < states.len() - 1 ==> clears_on(
                states[i],
                disks[i],
                states[i + 1],
                disks[i + 1],
            ),
    ensures
        states[n].steps == states[0].steps,
        clears(states[n], root, disks[n]),
        within(disks[n], disks[0]),
        forall|p: PathView|
            disks[0].dom().contains(p) && !is_meant(root, plan, p)
                ==> #[trigger] disks[n].dom().contains(p),
    decreases n,
{
    let s0 = states[0];
    if n == 0 {
        crate::remove::law_broker_begins(all_dirs(plan.dirs, top_of(root.style)), parent);
        assert(s0.steps.len() == s0.broker.done.len());
        lemma_steps_shape(root, plan, parent);
        lemma_tried_bounds(s0.broker.done, s0.steps, s0.steps.len() as int);
    } else {
        lemma_every_clearing(root, plan, parent, states, disks, n - 1);
        let r = states[n - 1];
        assert(clears_on(r, disks[n - 1], states[n - 1 + 1], disks[n - 1 + 1]));
        lemma_steps_shape(root, plan, parent);
        lemma_places_differ(root, plan, parent);
        if states[n] == (RemovalView { broker: r.broker.taken(), ..r }) && disks[n]
            == disks[n - 1] {
            crate::remove::law_broker_sound(r.broker, 0);
        } else {
            let (dir, faults) = choose|dir: int, faults: Seq<Option<(FaultKind, Seq<char>)>>|
                0 <= dir < r.steps.len() && r.broker.is_out(dir) && !r.broker.done[dir]
                    && may_clear(disks[n - 1], r.steps[dir], faults) && states[n]
                    == #[trigger] r.settled(dir, faults) && disks[n] == cleared(
                    disks[n - 1],
                    r.steps[dir],
                    faults,
                );
            lemma_settled_clears(r, root, disks[n - 1], dir, faults);
            lemma_cleared_shrinks(disks[n - 1], r.steps[dir], faults, root);
            assert forall|p: PathView| #[trigger] disks[n].dom().contains(p) implies disks[0].dom().contains(
                p,
            ) && disks[n][p] == disks[0][p] by {
                assert(disks[n - 1].dom().contains(p));
            }
            assert forall|p: PathView|
                disks[0].dom().contains(p) && !is_meant(root, plan, p) implies #[trigger] disks[n].dom().contains(
            p) by {
                assert(disks[n - 1].dom().contains(p));
                assert forall|i: int| 0 <= i < r.steps[dir].len() implies (
                #[trigger] r.steps[dir][i]).path != p by {
                    lemma_step_meant(root, plan, parent, dir, i);
                }
            }
        }
    }
}

proof fn lemma_step_meant(root: PathView, plan: PlanView, parent: Seq<int>, k: int, i: int)
    requires
        is_place(root),
        well_listed(plan, root),
        0 <= k < removal_start(root, plan, parent).steps.len(),
        0 <= i < removal_start(root, plan, parent).steps[k].len(),
    ensures
        is_meant(root, plan, removal_start(root, plan, parent).steps[k][i].path),
        removal_start(root, plan, parent).steps[k][i].path.starts_with(root),
{
    let m = lemma_step_rel(root, plan, parent, k, i);
    let x = if m >= 0 {
        all_rels(plan)[m]
    } else {
        top_of(root.style)
    };
    if m >= 0 {
        assert(leads_down(root.style, all_rels(plan)[m]));
        if m < plan.dirs.len() {
            assert(plan.dirs[m] == x);
        } else {
            assert(rels(plan)[m - plan.dirs.len()] == x);
        }
    }
    crate::replica::lemma_join(root, x);
    assert((root.parts + x.parts).subrange(0, root.parts.len() as int) =~= root.parts);
    assert(lists(plan, x) && root.join(x) == removal_start(root, plan, parent).steps[k][i].path);
}

proof fn lemma_steps_shape(root: PathView, plan: PlanView, parent: Seq<int>)
    ensures
        forall|k: int|
            0 <= k < removal_start(root, plan, parent).steps.len() ==> dir_steps(
                #[trigger] removal_start(root, plan, parent).steps[k],
            ) == 1 && removal_start(root, plan, parent).steps[k].len() >= 1,
{
    let top = top_of(root.style);
    let all = all_dirs(plan.dirs, top);
    let steps = removal_start(root, plan, parent).steps;
    assert forall|k: int| 0 <= k < steps.len() implies dir_steps(#[trigger] steps[k]) == 1
        && steps[k].len() >= 1 by {
        lemma_dir_steps(root, rels(plan), all[k], top);
        assert(steps[k].drop_last() =~= inside(root, rels(plan), all[k], top));
    }
}

/// In whatever order directories come back: once the removal of a tree is over, what was
/// removed and what failed are together all that was listed and the source itself. There
/// is no failure just if the source is gone, and then every directory, file and link was
/// counted. What is not listed, at the source or elsewhere, was not removed.
pub proof fn law_every_removal(
    root: PathView,
    plan: PlanView,
    parent: Seq<int>,
    states: Seq<RemovalView>,
    disks: Seq<Map<PathView, Node>>,
)
    requires
        is_place(root),
        well_listed(plan, root),
        plan.dirs.len() + plan.files.len() + plan.symlinks.len() + 1 <= usize::MAX,
        numbered(all_dirs(plan.dirs, top_of(root.style)), parent),
        states.len() > 0,
        disks.len() == states.len(),
        states[0] == removal_start(root, plan, parent),
        hangs_together(disks[0], root),
        forall|i: int|
            #![trigger states[i]]
            0 <= i < states.len() - 1 ==> clears_on(
                states[i],
                disks[i],
                states[i + 1],
                disks[i + 1],
            ),
    ensures
        within(disks.last(), disks[0]),
        forall|p: PathView|
            disks[0].dom().contains(p) && !is_meant(root, plan, p)
                ==> #[trigger] disks.last().dom().contains(p),
        within(contents(disks.last(), root), contents(disks[0], root)),
        forall|r: PathView| #[trigger]
            contents(disks[0], root).dom().contains(r) && !lists(plan, r) ==> contents(
                disks.last(),
                root,
            ).dom().contains(r),
        states.last().broker.finished() ==> {
            let p = states.last().progress;
            &&& p.dirs_done + p.files_done + p.failures.len() == plan.dirs.len() + plan.files.len()
                + plan.symlinks.len() + 1
            &&& p.failures.len() == 0 <==> !disks.last().dom().contains(root)
            &&& p.failures.len() == 0 ==> p.dirs_done == plan.dirs.len() + 1 && p.files_done
                == plan.files.len() + plan.symlinks.len()
            &&& p.failures.len() == 0 ==> contents(disks.last(), root) == Contents::empty()
        },
{
    let n = states.len() - 1;
    let top = top_of(root.style);
    let all = all_dirs(plan.dirs, top);
    let steps = removal_start(root, plan, parent).steps;
    let len = steps.len() as int;
    crate::remove::lemma_all_distinct(plan.dirs, top);
    lemma_steps_sum(root, plan, parent, len);
    lemma_inside_sum(root, rels(plan), all, top);
    lemma_every_clearing(root, plan, parent, states, disks, n);
    lemma_steps_shape(root, plan, parent);
    let r = states[n];
    let now = disks[n];
    assert forall|x: PathView| #[trigger]
        contents(disks[0], root).dom().contains(x) && !lists(plan, x) implies contents(
        now,
        root,
    ).dom().contains(x) by {
        if is_meant(root, plan, root.join(x)) {
            let y = choose|y: PathView|
                leads_down(root.style, y) && lists(plan, y) && #[trigger] root.join(y) == root.join(
                    x,
                );
            crate::replica::lemma_join_differs(root, x, y);
        }
        assert(now.dom().contains(root.join(x)));
    }
    if r.broker.finished() {
        assert forall|i: int| 0 <= i < len implies #[trigger] r.broker.done[i] by {}
        lemma_tried_bounds(r.broker.done, r.steps, len);
        let last = steps[0].len() - 1;
        assert(steps[0][last].path == root.join(top));
        assert(root.parts + top.parts =~= root.parts);
        assert(root.join(top) == root);
        if r.progress.failures.len() == 0 {
            assert(!now.dom().contains(r.steps[0][last].path));
            assert forall|x: PathView| !contents(now, root).dom().contains(x) by {
                if contents(now, root).dom().contains(x) {
                    crate::replica::lemma_join(root, x);
                    assert((root.parts + x.parts).subrange(0, root.parts.len() as int)
                        =~= root.parts);
                    lemma_root_holds(now, root, root.join(x));
                }
            }
            assert(contents(now, root) =~= Contents::empty());
        } else {
            let (k, i) = choose|k: int, i: int|
                0 <= k < len && r.broker.done[k] && 0 <= i < r.steps[k].len() && now.dom().contains(
                    (#[trigger] r.steps[k][i]).path,
                );
            lemma_step_meant(root, plan, parent, k, i);
            lemma_root_holds(now, root, r.steps[k][i].path);
        }
    }
}

} // verus!
