//! What files that are one and the same save.

use vstd::prelude::*;

use crate::copy::copied;
use crate::copy::leader;
use crate::copy::linked;
use crate::names::copied_bytes;
use crate::names::total;
use crate::order::distinct;
use crate::order::lemma_picked_sum;
use crate::order::sum_of;
use crate::plan::are_groups;
use crate::plan::file_size;
use crate::plan::file_views;
use crate::plan::in_some_group;
use crate::plan::index_views;
use crate::plan::indices;
use crate::plan::is_group;
use crate::plan::sum_sizes;
use crate::plan::FileItem;
use crate::plan::FileView;

verus! {

/// The lists one behind the other.
pub open spec fn flat(gs: Seq<Seq<int>>) -> Seq<int>
    decreases gs.len(),
{
    if gs.len() == 0 {
        Seq::empty()
    } else {
        flat(gs.drop_last()) + gs.last()
    }
}

/// The lists without their first elements.
pub open spec fn tails(gs: Seq<Seq<int>>) -> Seq<Seq<int>> {
    Seq::new(gs.len(), |n: int| gs[n].skip(1))
}

/// The sizes of some of the files together.
pub open spec fn bytes_at(files: Seq<FileView>, at: Seq<int>) -> nat {
    sum_of(at, |i: int| file_size()(files[i]))
}

/// How many bytes need not be copied: of each group all but the first file.
pub open spec fn saved(files: Seq<FileView>, gs: Seq<Seq<int>>) -> nat {
    bytes_at(files, flat(tails(gs)))
}

/// Whether no two lists have an element in common, nor one twice.
pub open spec fn apart(gs: Seq<Seq<int>>) -> bool {
    &&& forall|n: int| 0 <= n < gs.len() ==> distinct(#[trigger] gs[n])
    &&& forall|m: int, n: int, x: int, y: int|
        0 <= m < n < gs.len() && 0 <= x < gs[m].len() && 0 <= y < gs[n].len() ==> #[trigger] gs[m][x]
            != #[trigger] gs[n][y]
}

pub proof fn lemma_flat_member(gs: Seq<Seq<int>>, k: int)
    requires
        0 <= k < flat(gs).len(),
    ensures
        exists|n: int, x: int|
            0 <= n < gs.len() && 0 <= x < gs[n].len() && #[trigger] gs[n][x] == flat(gs)[k],
    decreases gs.len(),
{
    if gs.len() > 0 {
        let head = gs.drop_last();
        let last = gs.len() - 1;
        if k < flat(head).len() {
            lemma_flat_member(head, k);
            let (n, x) = choose|n: int, x: int|
                0 <= n < head.len() && 0 <= x < head[n].len() && #[trigger] head[n][x] == flat(
                    head,
                )[k];
            assert(gs[n][x] == flat(gs)[k]);
        } else {
            let x = k - flat(head).len();
            assert(gs[last][x] == flat(gs)[k]);
        }
    }
}

pub proof fn lemma_flat_distinct(gs: Seq<Seq<int>>)
    requires
        apart(gs),
    ensures
        distinct(flat(gs)),
    decreases gs.len(),
{
    if gs.len() > 0 {
        let head = gs.drop_last();
        let last = gs.len() - 1;
        assert forall|n: int| 0 <= n < head.len() implies distinct(#[trigger] head[n]) by {
            assert(head[n] == gs[n]);
        }
        assert forall|m: int, n: int, x: int, y: int|
            0 <= m < n < head.len() && 0 <= x < head[m].len() && 0 <= y
                < head[n].len() implies #[trigger] head[m][x] != #[trigger] head[n][y] by {
            assert(gs[m][x] != gs[n][y]);
        }
        lemma_flat_distinct(head);
        let all = flat(gs);
        assert forall|i: int, j: int| 0 <= i < j < all.len() implies #[trigger] all[i]
            != #[trigger] all[j] by {
            let h = flat(head).len();
            if j >= h {
                assert(all[j] == gs[last][j - h]);
                if i >= h {
                    assert(distinct(gs[last]));
                    assert(gs[last][i - h] != gs[last][j - h]);
                } else {
                    lemma_flat_member(head, i);
                    let (n, x) = choose|n: int, x: int|
                        0 <= n < head.len() && 0 <= x < head[n].len() && #[trigger] head[n][x]
                            == flat(head)[i];
                    assert(gs[n][x] != gs[last][j - h]);
                }
            } else {
                assert(flat(head)[i] != flat(head)[j]);
            }
        }
    }
}

pub proof fn lemma_groups_apart(files: Seq<FileView>, gs: Seq<Seq<int>>)
    requires
        are_groups(files, gs),
    ensures
        apart(gs),
        apart(tails(gs)),
{
    assert forall|n: int| 0 <= n < gs.len() implies distinct(#[trigger] gs[n]) by {
        assert(is_group(files, gs[n]));
    }
    assert forall|m: int, n: int, x: int, y: int|
        0 <= m < n < gs.len() && 0 <= x < gs[m].len() && 0 <= y < gs[n].len() implies #[trigger] gs[m][x]
        != #[trigger] gs[n][y] by {
        let a = gs[m];
        let b = gs[n];
        assert(is_group(files, a));
        assert(is_group(files, b));
        if a[x] == b[y] {
            let k = a[x];
            assert(0 <= a[x] < files.len());
            assert(a.contains(k));
            assert(b.contains(k));
            assert(0 <= a[0] < files.len());
            assert(b.contains(a[0]));
            let z = choose|z: int| 0 <= z < b.len() && b[z] == a[0];
            assert(b[0] <= b[z]);
            assert(a[0] < b[0]);
        }
    }
    let ts = tails(gs);
    assert forall|n: int| 0 <= n < ts.len() implies distinct(#[trigger] ts[n]) by {
        assert(distinct(gs[n]));
        assert forall|i: int, j: int| 0 <= i < j < ts[n].len() implies #[trigger] ts[n][i]
            != #[trigger] ts[n][j] by {
            assert(gs[n][i + 1] != gs[n][j + 1]);
        }
    }
    assert forall|m: int, n: int, x: int, y: int|
        0 <= m < n < ts.len() && 0 <= x < ts[m].len() && 0 <= y < ts[n].len() implies #[trigger] ts[m][x]
        != #[trigger] ts[n][y] by {
        assert(gs[m][x + 1] != gs[n][y + 1]);
    }
}

proof fn lemma_flat_in_range(files: Seq<FileView>, gs: Seq<Seq<int>>)
    requires
        are_groups(files, gs),
    ensures
        forall|k: int| 0 <= k < flat(gs).len() ==> 0 <= #[trigger] flat(gs)[k] < files.len(),
        forall|k: int|
            0 <= k < flat(tails(gs)).len() ==> 0 <= #[trigger] flat(tails(gs))[k] < files.len(),
{
    assert forall|k: int| 0 <= k < flat(gs).len() implies 0 <= #[trigger] flat(gs)[k]
        < files.len() by {
        lemma_flat_member(gs, k);
        let (n, x) = choose|n: int, x: int|
            0 <= n < gs.len() && 0 <= x < gs[n].len() && #[trigger] gs[n][x] == flat(gs)[k];
        assert(is_group(files, gs[n]));
    }
    let ts = tails(gs);
    assert forall|k: int| 0 <= k < flat(ts).len() implies 0 <= #[trigger] flat(ts)[k]
        < files.len() by {
        lemma_flat_member(ts, k);
        let (n, x) = choose|n: int, x: int|
            0 <= n < ts.len() && 0 <= x < ts[n].len() && #[trigger] ts[n][x] == flat(ts)[k];
        assert(is_group(files, gs[n]));
        assert(ts[n][x] == gs[n][x + 1]);
    }
}

proof fn lemma_ones(s: Seq<int>)
    ensures
        sum_of(s, |i: int| 1nat) == s.len(),
    decreases s.len(),
{
    if s.len() > 0 {
        lemma_ones(s.drop_last());
    }
}

proof fn lemma_all_ones(s: Seq<FileView>)
    ensures
        sum_of(s, |f: FileView| 1nat) == s.len(),
    decreases s.len(),
{
    if s.len() > 0 {
        lemma_all_ones(s.drop_last());
    }
}

proof fn lemma_tails_len(gs: Seq<Seq<int>>)
    requires
        forall|n: int| 0 <= n < gs.len() ==> (#[trigger] gs[n]).len() >= 1,
    ensures
        flat(gs).len() == flat(tails(gs)).len() + gs.len(),
    decreases gs.len(),
{
    if gs.len() > 0 {
        let head = gs.drop_last();
        assert forall|n: int| 0 <= n < head.len() implies (#[trigger] head[n]).len() >= 1 by {
            assert(head[n] == gs[n]);
        }
        lemma_tails_len(head);
        assert(tails(gs).drop_last() =~= tails(head));
        assert(tails(gs).last() == gs.last().skip(1));
        assert(gs[gs.len() - 1].len() >= 1);
    }
}

/// No file is in two groups, so there are no more files in them than there are, and
/// they save no more than all files hold.
pub proof fn law_groups_share_nothing(files: Seq<FileView>, gs: Seq<Seq<int>>)
    requires
        are_groups(files, gs),
    ensures
        distinct(flat(gs)),
        flat(gs).len() <= files.len(),
        flat(gs).len() == flat(tails(gs)).len() + gs.len(),
        saved(files, gs) <= sum_sizes(files),
{
    lemma_groups_apart(files, gs);
    lemma_flat_in_range(files, gs);
    lemma_flat_distinct(gs);
    lemma_flat_distinct(tails(gs));
    lemma_picked_sum(files, flat(tails(gs)), file_size());
    let one = |f: FileView| 1nat;
    lemma_picked_sum(files, flat(gs), one);
    lemma_all_ones(files);
    assert((|i: int| one(files[i])) =~= (|i: int| 1nat));
    lemma_ones(flat(gs));
    assert forall|n: int| 0 <= n < gs.len() implies (#[trigger] gs[n]).len() >= 1 by {
        assert(is_group(files, gs[n]));
    }
    lemma_tails_len(gs);
}

/// The members of the groups but the first of each.
fn followers(groups: &Vec<Vec<usize>>) -> (r: Vec<usize>)
    requires
        forall|n: int| 0 <= n < groups.len() ==> (#[trigger] groups[n]).len() >= 1,
    ensures
        indices(r@) == flat(tails(index_views(groups@))),
{
    let ghost gs = index_views(groups@);
    let ghost ts = tails(gs);
    let mut r: Vec<usize> = Vec::new();
    let mut n: usize = 0;
    assert(ts.take(0) =~= Seq::empty());
    while n < groups.len()
        invariant
            0 <= n <= groups.len(),
            forall|n: int| 0 <= n < groups.len() ==> (#[trigger] groups[n]).len() >= 1,
            gs == index_views(groups@),
            ts == tails(gs),
            indices(r@) == flat(ts.take(n as int)),
        decreases groups.len() - n,
    {
        let ghost start = indices(r@);
        let mut k: usize = 1;
        assert(groups[n as int].len() >= 1);
        assert(ts[n as int].take(0) =~= Seq::empty());
        while k < groups[n].len()
            invariant
                0 <= n < groups.len(),
                1 <= k <= groups[n as int].len(),
                gs == index_views(groups@),
                ts == tails(gs),
                indices(r@) == start + ts[n as int].take(k - 1),
            decreases groups[n as int].len() - k,
        {
            let ghost so_far = indices(r@);
            r.push(groups[n][k]);
            assert(indices(r@) =~= so_far.push(groups@[n as int]@[k as int] as int));
            assert(ts[n as int].take(k as int) =~= ts[n as int].take(k - 1).push(
                groups@[n as int]@[k as int] as int,
            ));
            assert(indices(r@) =~= start + ts[n as int].take(k as int));
            k = k + 1;
        }
        assert(ts[n as int].take(k - 1) =~= ts[n as int]);
        assert(ts.take(n + 1).drop_last() =~= ts.take(n as int));
        n = n + 1;
    }
    assert(ts.take(n as int) =~= ts);
    r
}

/// How many files are in the groups, and how many bytes need not be copied for them.
pub fn count_shared(files: &Vec<FileItem>, groups: &Vec<Vec<usize>>) -> (r: (usize, u64))
    requires
        are_groups(file_views(files@), index_views(groups@)),
        sum_sizes(file_views(files@)) <= u64::MAX,
    ensures
        r.0 == flat(index_views(groups@)).len(),
        r.1 == saved(file_views(files@), index_views(groups@)),
{
    let ghost all = file_views(files@);
    let ghost gs = index_views(groups@);
    proof {
        law_groups_share_nothing(all, gs);
        lemma_groups_apart(all, gs);
        lemma_flat_in_range(all, gs);
        lemma_flat_distinct(tails(gs));
        assert forall|n: int| 0 <= n < groups.len() implies (#[trigger] groups[n]).len() >= 1 by {
            assert(is_group(all, gs[n]));
        }
    }
    let rest = followers(groups);
    let ghost at = indices(rest@);
    assert(rest.len() + groups.len() <= files.len()) by {
        assert(at.len() == rest.len());
        assert(gs.len() == groups.len());
        assert(all.len() == files.len());
    }
    let ghost f = |i: int| file_size()(all[i]);
    let mut sum: u64 = 0;
    let mut k: usize = 0;
    assert(at.take(0) =~= Seq::empty());
    while k < rest.len()
        invariant
            0 <= k <= rest.len(),
            all == file_views(files@),
            at == indices(rest@),
            f == (|i: int| file_size()(all[i])),
            distinct(at),
            forall|j: int| 0 <= j < at.len() ==> 0 <= #[trigger] at[j] < all.len(),
            sum_sizes(all) <= u64::MAX,
            sum == sum_of(at.take(k as int), f),
        decreases rest.len() - k,
    {
        let ghost more = at.take(k + 1);
        proof {
            assert(more.drop_last() =~= at.take(k as int));
            assert(more.last() == at[k as int]);
            assert forall|j: int| 0 <= j < more.len() implies 0 <= #[trigger] more[j] < all.len() by {
                assert(more[j] == at[j]);
            }
            lemma_picked_sum(all, more, file_size());
            assert(0 <= at[k as int] < all.len());
        }
        sum = sum + files[rest[k]].size;
        k = k + 1;
    }
    assert(at.take(k as int) =~= at);
    (rest.len() + groups.len(), sum)
}

/// Two different files are in one group just where they were told to be one, and a file is
/// in no group just where no other was told to be the same.
pub proof fn law_groups_are_the_names(files: Seq<FileView>, gs: Seq<Seq<int>>, i: int, j: int)
    requires
        are_groups(files, gs),
        0 <= i < files.len(),
        0 <= j < files.len(),
        i != j,
    ensures
        (exists|n: int| 0 <= n < gs.len() && #[trigger] gs[n].contains(i) && gs[n].contains(j)) <==> (
        files[i].hardlink_id is Some && files[i].hardlink_id == files[j].hardlink_id),
{
    if exists|n: int| 0 <= n < gs.len() && #[trigger] gs[n].contains(i) && gs[n].contains(j) {
        let n = choose|n: int|
            0 <= n < gs.len() && #[trigger] gs[n].contains(i) && gs[n].contains(j);
        assert(is_group(files, gs[n]));
    }
    if files[i].hardlink_id is Some && files[i].hardlink_id == files[j].hardlink_id {
        assert(in_some_group(gs, i));
        let n = choose|n: int| 0 <= n < gs.len() && (#[trigger] gs[n]).contains(i);
        assert(is_group(files, gs[n]));
        assert(gs[n].contains(j));
    }
}

/// The files that are saved are just those that are linked to another.
proof fn lemma_tails_are_linked(files: Seq<FileView>, gs: Seq<Seq<int>>, i: int)
    requires
        are_groups(files, gs),
        0 <= i < files.len(),
    ensures
        flat(tails(gs)).contains(i) <==> leader(files, i) != i,
{
    let ts = tails(gs);
    if flat(ts).contains(i) {
        let k = choose|k: int| 0 <= k < flat(ts).len() && flat(ts)[k] == i;
        lemma_flat_member(ts, k);
        let (n, x) = choose|n: int, x: int|
            0 <= n < ts.len() && 0 <= x < ts[n].len() && #[trigger] ts[n][x] == flat(ts)[k];
        assert(is_group(files, gs[n]));
        assert(gs[n][x + 1] == i);
        assert(gs[n].contains(i));
        crate::copy::lemma_group_leader(files, gs[n], i);
        assert(gs[n][0] < gs[n][x + 1]);
    }
    if leader(files, i) != i {
        crate::copy::law_leader_is_copied(files, i);
        crate::copy::law_leaders_tell(files, i, leader(files, i));
        assert(files[i].hardlink_id is Some);
        assert(in_some_group(gs, i));
        let n = choose|n: int| 0 <= n < gs.len() && (#[trigger] gs[n]).contains(i);
        assert(is_group(files, gs[n]));
        crate::copy::lemma_group_leader(files, gs[n], i);
        let x = choose|x: int| 0 <= x < gs[n].len() && gs[n][x] == i;
        assert(x > 0);
        assert(ts[n][x - 1] == i);
        lemma_flat_has(ts, n, x - 1);
    }
}

proof fn lemma_flat_has(gs: Seq<Seq<int>>, n: int, x: int)
    requires
        0 <= n < gs.len(),
        0 <= x < gs[n].len(),
    ensures
        flat(gs).contains(gs[n][x]),
    decreases gs.len(),
{
    let head = gs.drop_last();
    if n < head.len() {
        lemma_flat_has(head, n, x);
        let k = choose|k: int| 0 <= k < flat(head).len() && flat(head)[k] == head[n][x];
        assert(flat(gs)[k] == gs[n][x]);
    } else {
        assert(flat(gs)[flat(head).len() + x] == gs[n][x]);
    }
}

proof fn lemma_total_is_sum(f: spec_fn(int) -> nat, s: Seq<int>)
    ensures
        total(|k: int| f(s[k]), s.len() as int) == sum_of(s, f),
    decreases s.len(),
{
    if s.len() > 0 {
        let r = s.drop_last();
        lemma_total_is_sum(f, r);
        crate::names::lemma_total_same(|k: int| f(s[k]), |k: int| f(r[k]), r.len() as int);
    }
}

/// What is told to be saved by names of one file is just what is not copied: it and what is
/// copied, where every further name can be linked, are all that there is.
#[verifier::spinoff_prover]
#[verifier::rlimit(40)]
pub proof fn law_saved_is_not_copied(files: Seq<FileView>, gs: Seq<Seq<int>>)
    requires
        are_groups(files, gs),
    ensures
        saved(files, gs) + copied_bytes(files, Set::empty()) == sum_sizes(files),
{
    let ts = flat(tails(gs));
    let ls = linked(files);
    lemma_groups_apart(files, gs);
    lemma_flat_distinct(tails(gs));
    lemma_flat_in_range(files, gs);
    crate::copy::law_every_file_has_a_ticket(files);
    crate::copy::law_every_ticket_has_a_file(files);
    assert forall|i: int| ts.contains(i) <==> ls.contains(i) by {
        if ts.contains(i) {
            let k = choose|k: int| 0 <= k < ts.len() && ts[k] == i;
            lemma_flat_member(tails(gs), k);
            let (n, x) = choose|n: int, x: int|
                0 <= n < tails(gs).len() && 0 <= x < tails(gs)[n].len()
                    && #[trigger] tails(gs)[n][x] == ts[k];
            assert(is_group(files, gs[n]));
            assert(gs[n][x + 1] == i);
            lemma_tails_are_linked(files, gs, i);
            if copied(files).contains(i) {
                let c = choose|c: int| 0 <= c < copied(files).len() && copied(files)[c] == i;
                assert(leader(files, copied(files)[c]) == copied(files)[c]);
            }
        }
        if ls.contains(i) {
            let k = choose|k: int| 0 <= k < ls.len() && ls[k] == i;
            assert(leader(files, ls[k]) != ls[k]);
            lemma_tails_are_linked(files, gs, i);
        }
    }
    assert(ts.no_duplicates()) by {
        assert forall|i: int, j: int| 0 <= i < ts.len() && 0 <= j < ts.len() && i != j implies ts[i]
            != ts[j] by {
            if i < j {
                assert(ts[i] != ts[j]);
            } else {
                assert(ts[j] != ts[i]);
            }
        }
    }
    crate::census::lemma_same_elements(ts, ls);
    let f = |i: int| file_size()(files[i]);
    crate::census::lemma_same_sum(ts, ls, f);
    // Every file is copied or linked.
    crate::names::lemma_total_sorted_out(files, f, files.len() as int);
    crate::names::lemma_total_sizes(files, files.len() as int);
    assert(files.take(files.len() as int) =~= files);
    let sizes = |i: int| files[i].size as nat;
    crate::names::lemma_total_same(f, sizes, files.len() as int);
    lemma_total_is_sum(f, ls);
    crate::names::lemma_total_same(
        |k: int| f(ls[k]),
        crate::names::of_each(f, ls),
        ls.len() as int,
    );
    let none = Set::<int>::empty();
    let own = crate::names::own_bytes(files, none);
    crate::names::lemma_total_sorted_out(files, own, files.len() as int);
    let cs = copied(files);
    assert forall|k: int| 0 <= k < cs.len() implies #[trigger] crate::names::of_each(own, cs)(k)
        == crate::names::of_each(f, cs)(k) by {
        assert(leader(files, cs[k]) == cs[k]);
    }
    crate::names::lemma_total_same(
        crate::names::of_each(own, cs),
        crate::names::of_each(f, cs),
        cs.len() as int,
    );
    let zero = |k: int| 0nat;
    assert forall|k: int| 0 <= k < ls.len() implies #[trigger] crate::names::of_each(own, ls)(k)
        == zero(k) by {
        assert(leader(files, ls[k]) != ls[k]);
    }
    crate::names::lemma_total_same(crate::names::of_each(own, ls), zero, ls.len() as int);
    crate::names::lemma_total_zero(ls.len() as int);
}

} // verus!
