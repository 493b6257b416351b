//! That names of one file stay names of one file when a tree is copied, and how many
//! bytes are copied.

use vstd::prelude::*;

use crate::copy::copied;
use crate::copy::leader;
use crate::copy::linked;
use crate::copy::sorted_out;
use crate::copy::CopyView;
use crate::copy::TaskView;
use crate::error::FaultKind;
use crate::path::PathView;
use crate::plan::file_size;
use crate::plan::sum_sizes;
use crate::plan::FileView;
use crate::replica::copy_ready;
use crate::replica::leads_down;
use crate::replica::place_of;
use crate::replica::ticket_rel;
use crate::world::Node;

verus! {

/// Whether `after` may be the files that the names are of once a task was tried. A file
/// that was copied is a new one, of which there was no name, and a further name is of the
/// file that it was made for. What failed made no other name one of another file.
pub open spec fn names_leave(
    files: Map<PathView, int>,
    task: TaskView,
    fault: Option<(FaultKind, Seq<char>)>,
    after: Map<PathView, int>,
) -> bool {
    match task {
        TaskView::CopyFile { from, to, size } => {
            &&& after.remove(to) == files.remove(to)
            &&& fault is None ==> after.dom().contains(to) && forall|p: PathView| #[trigger]
                files.dom().contains(p) && p != to ==> files[p] != after[to]
        },
        TaskView::HardLink { existing, link } => after == if fault is None {
            files.insert(link, files[existing])
        } else {
            files
        },
        _ => after == files,
    }
}

/// The files that were copied though they are further names, since they could not be
/// linked, one step on.
pub open spec fn fallen_after(s: CopyView, next: CopyView, fallen: Set<int>) -> Set<int> {
    if s.retry is Some && next.retry is None && !next.progress.aborted {
        fallen.insert(s.file(s.next - 1))
    } else {
        fallen
    }
}

/// The files that were copied though they are further names, in the first states.
pub open spec fn fallen(states: Seq<CopyView>, n: int) -> Set<int>
    decreases n,
{
    if n <= 0 {
        Set::empty()
    } else {
        fallen_after(states[n - 1], states[n], fallen(states, n - 1))
    }
}

/// Where every further name could be linked, none was copied.
pub proof fn law_none_fallen(states: Seq<CopyView>, n: int)
    requires
        n < states.len(),
        forall|i: int| 0 <= i < n ==> (#[trigger] states[i]).retry is None,
    ensures
        fallen(states, n) == Set::<int>::empty(),
    decreases n,
{
    if n > 0 {
        law_none_fallen(states, n - 1);
        assert(states[n - 1].retry is None);
    }
}

/// The file that is copied for the name `i`: its own where it could not be linked, or
/// else that of its first name.
pub open spec fn copied_for(files: Seq<FileView>, fallen: Set<int>, i: int) -> int {
    if fallen.contains(i) {
        i
    } else {
        leader(files, i)
    }
}

/// How many bytes are copied for the name `i` alone.
pub open spec fn own_bytes(files: Seq<FileView>, fallen: Set<int>) -> spec_fn(int) -> nat {
    |i: int|
        if copied_for(files, fallen, i) == i {
            files[i].size as nat
        } else {
            0nat
        }
}

/// What `f` makes of the first `n` numbers, together.
pub open spec fn total(f: spec_fn(int) -> nat, n: int) -> nat
    decreases n,
{
    if n <= 0 {
        0
    } else {
        total(f, n - 1) + f(n - 1)
    }
}

/// How many bytes are copied for all the names: those of every file once, and those of
/// each further name that could not be linked.
pub open spec fn copied_bytes(files: Seq<FileView>, fallen: Set<int>) -> nat {
    total(own_bytes(files, fallen), files.len() as int)
}

/// Whether two names are to be of one file: they are the same name, or were told to be of
/// one file and could be linked.
pub open spec fn as_one(files: Seq<FileView>, fallen: Set<int>, i: int, j: int) -> bool {
    i == j || (files[i].hardlink_id is Some && files[i].hardlink_id == files[j].hardlink_id
        && !fallen.contains(i) && !fallen.contains(j))
}

/// Whether the names below `dst` are of one file just where they are to be, and of none
/// that there was a name of elsewhere.
pub open spec fn names_kept(
    files: Seq<FileView>,
    fallen: Set<int>,
    first: Map<PathView, int>,
    at: Map<PathView, int>,
    dst: PathView,
) -> bool {
    &&& forall|i: int|
        0 <= i < files.len() ==> at.dom().contains(dst.join((#[trigger] files[i]).rel))
    &&& forall|i: int, j: int|
        0 <= i < files.len() && 0 <= j < files.len() ==> (at[dst.join((#[trigger] files[i]).rel)]
            == at[dst.join((#[trigger] files[j]).rel)] <==> as_one(files, fallen, i, j))
    &&& forall|i: int, p: PathView|
        0 <= i < files.len() && #[trigger] first.dom().contains(p) && (forall|r: PathView|
            leads_down(dst.style, r) ==> #[trigger] dst.join(r) != p) ==> first[p] != at[dst.join(
            (#[trigger] files[i]).rel,
        )]
}

/// Two names are copied as one file just where they are to be of one.
pub proof fn law_copied_as_one(files: Seq<FileView>, fallen: Set<int>, i: int, j: int)
    requires
        0 <= i < files.len(),
        0 <= j < files.len(),
        forall|k: int| #[trigger]
            fallen.contains(k) ==> 0 <= k < files.len() && leader(files, k) != k,
    ensures
        copied_for(files, fallen, i) == copied_for(files, fallen, j) <==> as_one(
            files,
            fallen,
            i,
            j,
        ),
{
    crate::copy::law_leaders_tell(files, i, j);
    lemma_leads_itself(files, i);
    lemma_leads_itself(files, j);
}

proof fn lemma_leads_itself(files: Seq<FileView>, i: int)
    requires
        0 <= i < files.len(),
    ensures
        0 <= leader(files, i) < files.len(),
        leader(files, leader(files, i)) == leader(files, i),
{
    crate::copy::law_leader_is_copied(files, i);
    crate::copy::law_every_ticket_has_a_file(files);
    let k = choose|k: int| 0 <= k < copied(files).len() && copied(files)[k] == leader(files, i);
    assert(leader(files, copied(files)[k]) == copied(files)[k]);
}

pub proof fn lemma_total_same(f: spec_fn(int) -> nat, g: spec_fn(int) -> nat, n: int)
    requires
        forall|k: int| 0 <= k < n ==> #[trigger] f(k) == g(k),
    ensures
        total(f, n) == total(g, n),
    decreases n,
{
    if n > 0 {
        lemma_total_same(f, g, n - 1);
        assert(f(n - 1) == g(n - 1));
    }
}

proof fn lemma_total_more(f: spec_fn(int) -> nat, g: spec_fn(int) -> nat, n: int, j: int)
    requires
        0 <= j < n,
        f(j) == 0,
        forall|k: int| 0 <= k < n && k != j ==> #[trigger] f(k) == g(k),
    ensures
        total(g, n) == total(f, n) + g(j),
    decreases n,
{
    if j == n - 1 {
        lemma_total_same(f, g, n - 1);
    } else {
        lemma_total_more(f, g, n - 1, j);
        assert(f(n - 1) == g(n - 1));
    }
}

proof fn lemma_total_most(f: spec_fn(int) -> nat, g: spec_fn(int) -> nat, n: int)
    requires
        forall|k: int| 0 <= k < n ==> #[trigger] f(k) <= g(k),
    ensures
        total(f, n) <= total(g, n),
    decreases n,
{
    if n > 0 {
        lemma_total_most(f, g, n - 1);
        assert(f(n - 1) <= g(n - 1));
    }
}

proof fn lemma_total_joins(f: spec_fn(int) -> nat, g: spec_fn(int) -> nat, m: int, n: int)
    requires
        0 <= m,
        0 <= n,
        forall|k: int| 0 <= k < n ==> #[trigger] g(k) == f(m + k),
    ensures
        total(f, m + n) == total(f, m) + total(g, n),
    decreases n,
{
    if n > 0 {
        lemma_total_joins(f, g, m, n - 1);
        assert(g(n - 1) == f(m + (n - 1)));
        assert(m + n - 1 == m + (n - 1));
    }
}

/// What `f` makes of the elements.
pub open spec fn of_each(f: spec_fn(int) -> nat, s: Seq<int>) -> spec_fn(int) -> nat {
    |k: int| f(s[k])
}

pub proof fn lemma_total_sorted_out(files: Seq<FileView>, f: spec_fn(int) -> nat, n: int)
    requires
        0 <= n <= files.len(),
    ensures
        total(of_each(f, sorted_out(files, true, n)), sorted_out(files, true, n).len() as int)
            + total(
            of_each(f, sorted_out(files, false, n)),
            sorted_out(files, false, n).len() as int,
        ) == total(f, n),
    decreases n,
{
    if n > 0 {
        lemma_total_sorted_out(files, f, n - 1);
        let own = leader(files, n - 1) == n - 1;
        let before = sorted_out(files, own, n - 1);
        let after = sorted_out(files, own, n);
        assert(after == before.push(n - 1));
        assert(sorted_out(files, !own, n) == sorted_out(files, !own, n - 1));
        lemma_total_same(of_each(f, before), of_each(f, after), before.len() as int);
    }
}

/// What `f` makes of the files of the tickets.
spec fn of_tickets(s: CopyView, f: spec_fn(int) -> nat) -> spec_fn(int) -> nat {
    |k: int| f(s.file(s.files_at() + k))
}

proof fn lemma_total_of_tickets(s: CopyView, f: spec_fn(int) -> nat)
    ensures
        total(of_tickets(s, f), s.plan.files.len() as int) == total(f, s.plan.files.len() as int),
{
    let files = s.plan.files;
    crate::copy::law_every_file_has_a_ticket(files);
    let m = copied(files).len() as int;
    let n = linked(files).len() as int;
    lemma_total_sorted_out(files, f, files.len() as int);
    lemma_total_same(of_each(f, copied(files)), of_tickets(s, f), m);
    lemma_total_joins(of_tickets(s, f), of_each(f, linked(files)), m, n);
}

pub proof fn lemma_total_sizes(files: Seq<FileView>, n: int)
    requires
        0 <= n <= files.len(),
    ensures
        total(|i: int| files[i].size as nat, n) == sum_sizes(files.take(n)),
    decreases n,
{
    let f = |i: int| files[i].size as nat;
    if n > 0 {
        lemma_total_sizes(files, n - 1);
        assert(files.take(n).drop_last() =~= files.take(n - 1));
        assert(file_size()(files.take(n).last()) == f(n - 1));
    }
}

/// Whether a ticket of a file came back, with the file there.
pub open spec fn came_back(s: CopyView, t: int) -> bool {
    s.files_at() <= t < s.end() && t < s.next && !s.open[t]
}

/// Where what a ticket is for is made.
pub open spec fn place(s: CopyView, t: int) -> PathView {
    s.dst.join(ticket_rel(s, t))
}

/// Which file each name is of in the course of copying, where it was `first` when that
/// began: names that no ticket is for are of the files that they were of, and unless
/// something failed, those that were made are of one file just where they were copied as
/// one, and of none that was there.
pub open spec fn names_fit(
    s: CopyView,
    fallen: Set<int>,
    first: Map<PathView, int>,
    now: Map<PathView, int>,
) -> bool {
    &&& forall|p: PathView|
        (forall|t: int| 0 <= t < s.end() ==> #[trigger] place(s, t) != p) ==> (
        #[trigger] now.dom().contains(p) <==> first.dom().contains(p)) && (first.dom().contains(p)
            ==> now[p] == first[p])
    &&& !s.progress.aborted ==> {
        &&& forall|t: int| #[trigger] came_back(s, t) ==> now.dom().contains(place(s, t))
        &&& forall|t: int, u: int| #[trigger]
            came_back(s, t) && #[trigger] came_back(s, u) ==> (now[place(s, t)] == now[place(s, u)]
                <==> copied_for(s.plan.files, fallen, s.file(t)) == copied_for(
                s.plan.files,
                fallen,
                s.file(u),
            ))
        &&& forall|t: int, p: PathView| #[trigger]
            came_back(s, t) && #[trigger] first.dom().contains(p) && (forall|u: int|
                0 <= u < s.end() ==> #[trigger] place(s, u) != p) ==> first[p] != now[place(s, t)]
    }
}

/// What of the bytes is counted for each ticket of a file so far.
spec fn back_bytes(s: CopyView, fallen: Set<int>) -> spec_fn(int) -> nat {
    |k: int|
        if came_back(s, s.files_at() + k) {
            own_bytes(s.plan.files, fallen)(s.file(s.files_at() + k))
        } else {
            0nat
        }
}

/// Whether the bytes counted are those that were copied so far, and only tickets that
/// came back fell.
spec fn bytes_fit(s: CopyView, fallen: Set<int>) -> bool {
    !s.progress.aborted ==> {
        &&& sum_sizes(s.plan.files) <= u64::MAX ==> s.progress.bytes_done == total(
            back_bytes(s, fallen),
            s.plan.files.len() as int,
        )
        &&& forall|t: int|
            s.files_at() <= t < s.end() && fallen.contains(#[trigger] s.file(t)) ==> s.names_at()
                <= t && came_back(s, t)
        &&& forall|i: int| #[trigger]
            fallen.contains(i) ==> 0 <= i < s.plan.files.len() && leader(s.plan.files, i) != i
    }
}

proof fn lemma_names_taken(
    s: CopyView,
    fallen: Set<int>,
    first: Map<PathView, int>,
    now: Map<PathView, int>,
)
    requires
        s.sound(),
        names_fit(s, fallen, first, now),
        bytes_fit(s, fallen),
    ensures
        fallen_after(s, s.taken(), fallen) == fallen,
        names_fit(s.taken(), fallen, first, now),
        bytes_fit(s.taken(), fallen),
{
    let a = s.taken();
    assert forall|t: int| #[trigger] came_back(a, t) <==> came_back(s, t) by {}
    assert forall|t: int| #[trigger] place(a, t) == place(s, t) by {}
    assert forall|t: int| #[trigger] a.file(t) == s.file(t) by {}
    assert forall|p: PathView|
        (forall|t: int| 0 <= t < a.end() ==> #[trigger] place(a, t) != p) implies (
    #[trigger] now.dom().contains(p) <==> first.dom().contains(p)) && (first.dom().contains(p)
        ==> now[p] == first[p]) by {
        lemma_same_places(s, a, p);
    }
    if !a.progress.aborted {
        assert forall|t: int, p: PathView| #[trigger]
            came_back(a, t) && #[trigger] first.dom().contains(p) && (forall|u: int|
                0 <= u < a.end() ==> #[trigger] place(a, u) != p) implies first[p] != now[place(
            a,
            t,
        )] by {
            assert(came_back(s, t));
            lemma_same_places(s, a, p);
        }
        assert forall|k: int| 0 <= k < s.plan.files.len() implies #[trigger] back_bytes(s, fallen)(
            k,
        ) == back_bytes(a, fallen)(k) by {
            assert(came_back(a, s.files_at() + k) <==> came_back(s, s.files_at() + k));
        }
        lemma_total_same(back_bytes(s, fallen), back_bytes(a, fallen), s.plan.files.len() as int);
    }
}

proof fn lemma_same_places(s: CopyView, b: CopyView, p: PathView)
    requires
        b.dst == s.dst,
        b.plan == s.plan,
        forall|u: int| 0 <= u < b.end() ==> #[trigger] place(b, u) != p,
    ensures
        forall|u: int| 0 <= u < s.end() ==> #[trigger] place(s, u) != p,
{
    assert forall|u: int| 0 <= u < s.end() implies #[trigger] place(s, u) != p by {
        assert(place(b, u) == place(s, u));
    }
}

/// The ticket of the first name of a file that is being linked came back.
proof fn lemma_leader_came_back(s: CopyView, t: int) -> (u: int)
    requires
        s.sound(),
        s.names_at() <= t < s.end(),
        s.open[t],
    ensures
        came_back(s, u),
        u < s.names_at(),
        s.file(u) == leader(s.plan.files, s.file(t)),
        place(s, u) == s.dst.join(s.plan.files[leader(s.plan.files, s.file(t))].rel),
{
    crate::replica::lemma_ticket(s, t);
    let j = leader(s.plan.files, s.file(t));
    crate::copy::law_leader_is_copied(s.plan.files, s.file(t));
    let k = choose|k: int| 0 <= k < copied(s.plan.files).len() && copied(s.plan.files)[k] == j;
    let u = s.files_at() + k;
    assert(s.file(u) == j);
    if s.open[u] {
        assert(u == s.next - 1 || s.next <= s.names_at());
    }
    u
}

/// No other ticket that came back is copied as the file of one that is being copied.
proof fn lemma_copied_alone(s: CopyView, fallen: Set<int>, t: int, u: int)
    requires
        s.sound(),
        s.files_at() <= t < s.end(),
        s.open[t],
        came_back(s, u),
        s.file(t) != s.file(u),
    ensures
        copied_for(s.plan.files, fallen, s.file(u)) != s.file(t),
{
    crate::replica::lemma_ticket(s, t);
    crate::replica::lemma_ticket(s, u);
    lemma_leads_itself(s.plan.files, s.file(u));
    if t < s.names_at() && u >= s.names_at() {
        assert(t == s.next - 1 || s.next <= s.names_at());
    }
}

#[verifier::spinoff_prover]
proof fn lemma_names_settled(
    s: CopyView,
    fallen: Set<int>,
    nodes: Map<PathView, Node>,
    first: Map<PathView, int>,
    now: Map<PathView, int>,
    t: int,
    fault: Option<(FaultKind, Seq<char>)>,
    after: Map<PathView, int>,
)
    requires
        s.sound(),
        copy_ready(s, nodes),
        names_fit(s, fallen, first, now),
        bytes_fit(s, fallen),
        0 <= t < s.end(),
        s.open[t],
        names_leave(now, s.task(t), fault, after),
    ensures
        names_fit(s.settled(t, fault), fallen_after(s, s.settled(t, fault), fallen), first, after),
{
    let b = s.settled(t, fault);
    let fell = fallen_after(s, b, fallen);
    let files = s.plan.files;
    crate::replica::lemma_ticket(s, t);
    let at = place(s, t);
    assert(place_of(s.task(t)) == at);
    assert forall|p: PathView| p != at implies (#[trigger] after.dom().contains(p)
        <==> now.dom().contains(p)) && (now.dom().contains(p) ==> after[p] == now[p]) by {
        assert(after.remove(at).dom().contains(p) <==> now.remove(at).dom().contains(p));
        assert(after.remove(at).dom().contains(p) ==> after.remove(at)[p] == after[p]);
        assert(now.remove(at).dom().contains(p) ==> now.remove(at)[p] == now[p]);
    }
    assert forall|p: PathView|
        (forall|u: int| 0 <= u < b.end() ==> #[trigger] place(b, u) != p) implies (
    #[trigger] after.dom().contains(p) <==> first.dom().contains(p)) && (first.dom().contains(p)
        ==> after[p] == first[p]) by {
        lemma_same_places(s, b, p);
        assert(place(s, t) != p);
        assert(now.dom().contains(p) <==> first.dom().contains(p));
        assert(after.dom().contains(p) <==> now.dom().contains(p));
        assert(first.dom().contains(p) ==> now[p] == first[p]);
    }
    if !b.progress.aborted {
        assert(!s.progress.aborted);
        assert forall|u: int| u != t implies (#[trigger] came_back(b, u) <==> came_back(s, u)) by {}
        assert forall|u: int| #[trigger] came_back(b, u) && u != t implies place(b, u) == place(
            s,
            u,
        ) && place(s, u) != at && after.dom().contains(place(s, u)) && after[place(s, u)]
            == now[place(s, u)] && s.file(u) != s.file(t) && b.file(u) == s.file(u)
            && copied_for(files, fell, s.file(u)) == copied_for(files, fallen, s.file(u)) by {
            assert(came_back(s, u));
            crate::replica::lemma_places_differ(s, nodes, t, u);
            if s.retry is Some {
                assert(t == s.next - 1);
            }
            if t >= s.files_at() {
                assert(s.file(u) != s.file(t)) by {
                    if s.file(u) == s.file(t) {
                        assert(ticket_rel(s, u) == ticket_rel(s, t));
                    }
                }
            } else {
                assert(came_back(s, u));
                assert(u < s.next);
                assert(t == s.next - 1);
            }
        }
        if came_back(b, t) {
            lemma_new_name(s, fallen, first, now, t, fault, after);
        }
        assert forall|u: int| #[trigger] came_back(b, u) implies after.dom().contains(
            place(b, u),
        ) by {
            if u == t {
                assert(place(b, u) == at);
            }
        }
        assert forall|u: int, v: int| #[trigger]
            came_back(b, u) && #[trigger] came_back(b, v) implies (after[place(b, u)]
            == after[place(b, v)] <==> copied_for(files, fell, b.file(u)) == copied_for(
            files,
            fell,
            b.file(v),
        )) by {
            if u != t {
                assert(came_back(s, u));
            }
            if v != t {
                assert(came_back(s, v));
            }
        }
        assert forall|u: int, p: PathView| #[trigger]
            came_back(b, u) && #[trigger] first.dom().contains(p) && (forall|v: int|
                0 <= v < b.end() ==> #[trigger] place(b, v) != p) implies first[p] != after[place(
            b,
            u,
        )] by {
            lemma_same_places(s, b, p);
            if u != t {
                assert(came_back(s, u));
            }
        }
    }
}

/// What holds of the name that a ticket made, and of those that there were.
proof fn lemma_new_name(
    s: CopyView,
    fallen: Set<int>,
    first: Map<PathView, int>,
    now: Map<PathView, int>,
    t: int,
    fault: Option<(FaultKind, Seq<char>)>,
    after: Map<PathView, int>,
)
    requires
        s.sound(),
        names_fit(s, fallen, first, now),
        bytes_fit(s, fallen),
        0 <= t < s.end(),
        s.open[t],
        names_leave(now, s.task(t), fault, after),
        !s.settled(t, fault).progress.aborted,
        came_back(s.settled(t, fault), t),
    ensures
        after.dom().contains(place(s, t)),
        forall|u: int| #[trigger]
            came_back(s, u) && s.file(u) != s.file(t) && place(s, u) != place(s, t) ==> (
            after[place(s, t)] == now[place(s, u)] <==> copied_for(
                s.plan.files,
                fallen_after(s, s.settled(t, fault), fallen),
                s.file(t),
            ) == copied_for(s.plan.files, fallen, s.file(u))),
        forall|p: PathView| #[trigger]
            first.dom().contains(p) && (forall|u: int|
                0 <= u < s.end() ==> #[trigger] place(s, u) != p) ==> first[p] != after[place(s, t)],
{
    let b = s.settled(t, fault);
    let files = s.plan.files;
    let fell = fallen_after(s, b, fallen);
    crate::replica::lemma_ticket(s, t);
    assert(fault is None);
    let at = place(s, t);
    if s.retry is Some {
        assert(t == s.next - 1);
    }
    if t < s.names_at() || s.retry is Some {
        assert(s.task(t) == (TaskView::CopyFile {
            from: s.src.join(files[s.file(t)].rel),
            to: at,
            size: files[s.file(t)].size,
        }));
        assert(copied_for(files, fell, s.file(t)) == s.file(t));
        assert forall|u: int| #[trigger]
            came_back(s, u) && s.file(u) != s.file(t) && place(s, u) != at implies (after[at]
            == now[place(s, u)] <==> copied_for(files, fell, s.file(t)) == copied_for(
            files,
            fallen,
            s.file(u),
        )) by {
            lemma_copied_alone(s, fallen, t, u);
            assert(now.dom().contains(place(s, u)));
        }
        assert forall|p: PathView| #[trigger]
            first.dom().contains(p) && (forall|u: int|
                0 <= u < s.end() ==> #[trigger] place(s, u) != p) implies first[p] != after[at] by {
            assert(place(s, t) != p);
            assert(now.dom().contains(p));
        }
    } else {
        let l = lemma_leader_came_back(s, t);
        assert(s.task(t) == (TaskView::HardLink { existing: place(s, l), link: at }));
        assert(after[at] == now[place(s, l)]);
        assert(!came_back(s, t));
        assert(!fallen.contains(s.file(t)));
        assert(!fallen.contains(s.file(l)));
        lemma_leads_itself(files, s.file(t));
        assert(copied_for(files, fallen, s.file(l)) == copied_for(files, fell, s.file(t)));
    }
}

proof fn lemma_bytes_settled(
    s: CopyView,
    fallen: Set<int>,
    nodes: Map<PathView, Node>,
    t: int,
    fault: Option<(FaultKind, Seq<char>)>,
)
    requires
        s.sound(),
        copy_ready(s, nodes),
        bytes_fit(s, fallen),
        0 <= t < s.end(),
        s.open[t],
    ensures
        bytes_fit(s.settled(t, fault), fallen_after(s, s.settled(t, fault), fallen)),
{
    let b = s.settled(t, fault);
    let fell = fallen_after(s, b, fallen);
    let files = s.plan.files;
    let n = files.len() as int;
    crate::replica::lemma_ticket(s, t);
    crate::copy::law_every_file_has_a_ticket(files);
    if !b.progress.aborted {
        if s.retry is Some {
            assert(t == s.next - 1);
        }
        assert forall|u: int| s.files_at() <= u < s.end() && u != t implies (#[trigger] came_back(
            b,
            u,
        ) <==> came_back(s, u)) && (t >= s.files_at() ==> s.file(u) != s.file(t)) by {
            if t >= s.files_at() && s.file(u) == s.file(t) {
                crate::replica::lemma_places_differ(s, nodes, t, u);
                assert(ticket_rel(s, u) == ticket_rel(s, t));
            }
        }
        assert forall|u: int|
            b.files_at() <= u < b.end() && fell.contains(#[trigger] b.file(u)) implies b.names_at()
            <= u && came_back(b, u) by {
            assert(s.file(u) == b.file(u));
            if u != t {
                assert(came_back(b, u) <==> came_back(s, u));
            }
        }
        assert forall|k: int| 0 <= k < n && s.files_at() + k != t implies #[trigger] back_bytes(
            s,
            fallen,
        )(k) == back_bytes(b, fell)(k) by {
            let u = s.files_at() + k;
            assert(came_back(b, u) <==> came_back(s, u));
            assert(s.file(u) == b.file(u));
        }
        if came_back(b, t) {
            let j = t - s.files_at();
            assert(back_bytes(s, fallen)(j) == 0);
            lemma_total_more(back_bytes(s, fallen), back_bytes(b, fell), n, j);
            lemma_bytes_most(b, fell);
        } else {
            lemma_total_same(back_bytes(s, fallen), back_bytes(b, fell), n);
        }
    }
}

/// What is counted is no more than all files hold.
proof fn lemma_bytes_most(s: CopyView, fallen: Set<int>)
    ensures
        total(back_bytes(s, fallen), s.plan.files.len() as int) <= sum_sizes(s.plan.files),
{
    let files = s.plan.files;
    let n = files.len() as int;
    let f = |i: int| files[i].size as nat;
    lemma_total_most(back_bytes(s, fallen), of_tickets(s, f), n);
    lemma_total_of_tickets(s, f);
    lemma_total_sizes(files, n);
    assert(files.take(n) =~= files);
}

/// Whether the books on names and bytes fit.
pub closed spec fn kept_up(
    s: CopyView,
    fallen: Set<int>,
    first: Map<PathView, int>,
    now: Map<PathView, int>,
) -> bool {
    names_fit(s, fallen, first, now) && bytes_fit(s, fallen)
}

/// Copying begins with no name made and no byte counted.
pub proof fn law_names_begin(s: CopyView, first: Map<PathView, int>)
    requires
        s.next == 0,
        s.progress.bytes_done == 0,
    ensures
        kept_up(s, Set::empty(), first, first),
{
    let zero = |k: int| 0nat;
    let n = s.plan.files.len() as int;
    assert forall|k: int| 0 <= k < n implies #[trigger] back_bytes(s, Set::empty())(k) == zero(
        k,
    ) by {
        assert(!came_back(s, s.files_at() + k));
    }
    lemma_total_same(back_bytes(s, Set::empty()), zero, n);
    lemma_total_zero(n);
}

pub proof fn lemma_total_zero(n: int)
    ensures
        total(|k: int| 0nat, n) == 0,
    decreases n,
{
    if n > 0 {
        lemma_total_zero(n - 1);
    }
}

/// Whatever comes of a ticket, and whenever the next is handed out, the books on names
/// and bytes fit.
pub proof fn law_names_keep_up(
    s: CopyView,
    fallen: Set<int>,
    nodes: Map<PathView, Node>,
    first: Map<PathView, int>,
    now: Map<PathView, int>,
    t: int,
    fault: Option<(FaultKind, Seq<char>)>,
    after: Map<PathView, int>,
)
    requires
        s.sound(),
        copy_ready(s, nodes),
        kept_up(s, fallen, first, now),
    ensures
        kept_up(s.taken(), fallen_after(s, s.taken(), fallen), first, now),
        0 <= t < s.end() && s.open[t] && names_leave(now, s.task(t), fault, after) ==> kept_up(
            s.settled(t, fault),
            fallen_after(s, s.settled(t, fault), fallen),
            first,
            after,
        ),
{
    lemma_names_taken(s, fallen, first, now);
    if 0 <= t < s.end() && s.open[t] && names_leave(now, s.task(t), fault, after) {
        lemma_names_settled(s, fallen, nodes, first, now, t, fault, after);
        lemma_bytes_settled(s, fallen, nodes, t, fault);
    }
}

/// When copying ends without a failure, the names at the destination are of one file just
/// where they are to be, and of none that was there; and the bytes counted are those that
/// were copied. Only further names were copied for want of a link.
pub proof fn law_names_end(
    s: CopyView,
    fallen: Set<int>,
    nodes: Map<PathView, Node>,
    first: Map<PathView, int>,
    now: Map<PathView, int>,
)
    requires
        s.sound(),
        copy_ready(s, nodes),
        kept_up(s, fallen, first, now),
        s.finished(),
        !s.progress.aborted,
    ensures
        names_kept(s.plan.files, fallen, first, now, s.dst),
        forall|i: int| #[trigger]
            fallen.contains(i) ==> 0 <= i < s.plan.files.len() && leader(s.plan.files, i) != i,
        sum_sizes(s.plan.files) <= u64::MAX ==> s.progress.bytes_done == copied_bytes(
            s.plan.files,
            fallen,
        ),
{
    let files = s.plan.files;
    assert forall|i: int| 0 <= i < files.len() implies now.dom().contains(
        s.dst.join((#[trigger] files[i]).rel),
    ) by {
        let t = lemma_has_ticket(s, i);
        assert(place(s, t) == s.dst.join(files[i].rel));
    }
    assert forall|i: int, j: int| 0 <= i < files.len() && 0 <= j < files.len() implies (now[s.dst.join(
        (#[trigger] files[i]).rel,
    )] == now[s.dst.join((#[trigger] files[j]).rel)] <==> as_one(files, fallen, i, j)) by {
        law_copied_as_one(files, fallen, i, j);
        let t = lemma_has_ticket(s, i);
        let u = lemma_has_ticket(s, j);
        assert(place(s, t) == s.dst.join(files[i].rel));
        assert(place(s, u) == s.dst.join(files[j].rel));
    }
    assert forall|i: int, p: PathView|
        0 <= i < files.len() && #[trigger] first.dom().contains(p) && (forall|r: PathView|
            leads_down(s.dst.style, r) ==> #[trigger] s.dst.join(r) != p) implies first[p]
        != now[s.dst.join((#[trigger] files[i]).rel)] by {
        let t = lemma_has_ticket(s, i);
        assert(place(s, t) == s.dst.join(files[i].rel));
        assert forall|u: int| 0 <= u < s.end() implies #[trigger] place(s, u) != p by {
            crate::replica::lemma_ticket(s, u);
        }
    }
    let n = files.len() as int;
    crate::copy::law_every_file_has_a_ticket(files);
    let f = own_bytes(files, fallen);
    assert forall|k: int| 0 <= k < n implies #[trigger] back_bytes(s, fallen)(k) == of_tickets(
        s,
        f,
    )(k) by {
        assert(!s.open[s.files_at() + k]);
        assert(came_back(s, s.files_at() + k));
    }
    lemma_total_same(back_bytes(s, fallen), of_tickets(s, f), n);
    lemma_total_of_tickets(s, f);
}

proof fn lemma_has_ticket(s: CopyView, i: int) -> (t: int)
    requires
        s.sound(),
        s.finished(),
        !s.progress.aborted,
        0 <= i < s.plan.files.len(),
    ensures
        came_back(s, t),
        s.file(t) == i,
{
    let files = s.plan.files;
    crate::copy::law_every_file_has_a_ticket(files);
    if copied(files).contains(i) {
        let k = choose|k: int| 0 <= k < copied(files).len() && copied(files)[k] == i;
        assert(!s.open[s.files_at() + k]);
        s.files_at() + k
    } else {
        assert(linked(files).contains(i));
        let k = choose|k: int| 0 <= k < linked(files).len() && linked(files)[k] == i;
        assert(!s.open[s.names_at() + k]);
        s.names_at() + k
    }
}

} // verus!
