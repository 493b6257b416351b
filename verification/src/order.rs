//! Putting lists in order.

use vstd::prelude::*;

verus! {

/// Whether `p` names each of `0..n` once.
pub open spec fn permutation(p: Seq<int>, n: nat) -> bool {
    &&& p.len() == n
    &&& forall|i: int| 0 <= i < n ==> 0 <= #[trigger] p[i] < n
    &&& forall|i: int, j: int| 0 <= i < j < n ==> #[trigger] p[i] != #[trigger] p[j]
}

/// Whether `new` is `old` in the order that `p` gives.
pub open spec fn reordered<A>(new: Seq<A>, old: Seq<A>, p: Seq<int>) -> bool {
    &&& permutation(p, old.len())
    &&& new.len() == old.len()
    &&& forall|i: int| 0 <= i < new.len() ==> #[trigger] new[i] == old[p[i]]
}

/// Whether `new` holds what `old` holds, as often as that, in some order.
pub open spec fn rearranged<A>(new: Seq<A>, old: Seq<A>) -> bool {
    exists|p: Seq<int>| reordered(new, old, p)
}

/// Whether the indices in `idx` are different ones out of `lo..hi`.
spec fn picked(idx: Seq<usize>, lo: int, hi: int) -> bool {
    &&& forall|i: int| 0 <= i < idx.len() ==> lo <= #[trigger] idx[i] < hi
    &&& forall|i: int, j: int| 0 <= i < j < idx.len() ==> #[trigger] idx[i] != #[trigger] idx[j]
}

/// Whether the keys that `idx` names never grow.
pub open spec fn falling(idx: Seq<usize>, keys: Seq<u64>) -> bool {
    forall|i: int, j: int|
        0 <= i <= j < idx.len() ==> keys[#[trigger] idx[i] as int] >= keys[#[trigger] idx[j] as int]
}

fn merge(keys: &Vec<u64>, a: &Vec<usize>, b: &Vec<usize>, lo: usize, mid: usize, hi: usize) -> (r:
    Vec<usize>)
    requires
        lo <= mid <= hi <= keys.len(),
        picked(a@, lo as int, mid as int),
        picked(b@, mid as int, hi as int),
        falling(a@, keys@),
        falling(b@, keys@),
    ensures
        r@.len() == a@.len() + b@.len(),
        picked(r@, lo as int, hi as int),
        falling(r@, keys@),
{
    let mut r: Vec<usize> = Vec::new();
    let mut i: usize = 0;
    let mut j: usize = 0;
    while i < a.len() || j < b.len()
        invariant
            lo <= mid <= hi <= keys.len(),
            picked(a@, lo as int, mid as int),
            picked(b@, mid as int, hi as int),
            falling(a@, keys@),
            falling(b@, keys@),
            0 <= i <= a.len(),
            0 <= j <= b.len(),
            r@.len() == i + j,
            picked(r@, lo as int, hi as int),
            falling(r@, keys@),
            forall|k: int, x: int|
                0 <= k < r@.len() && i <= x < a.len() ==> #[trigger] r@[k] != #[trigger] a@[x]
                    && keys@[r@[k] as int] >= keys@[a@[x] as int],
            forall|k: int, x: int|
                0 <= k < r@.len() && j <= x < b.len() ==> #[trigger] r@[k] != #[trigger] b@[x]
                    && keys@[r@[k] as int] >= keys@[b@[x] as int],
        decreases a.len() - i + b.len() - j,
    {
        let ghost before = r@;
        let from_a = j >= b.len() || (i < a.len() && keys[a[i]] >= keys[b[j]]);
        if from_a {
            r.push(a[i]);
            i = i + 1;
        } else {
            r.push(b[j]);
            j = j + 1;
        }
        assert forall|k: int| 0 <= k < r@.len() implies {
            ||| k < before.len() && r@[k] == before[k]
            ||| k == before.len() && r@[k] == r@.last()
        } by {}
    }
    r
}

fn sort_range(keys: &Vec<u64>, lo: usize, hi: usize) -> (r: Vec<usize>)
    requires
        lo <= hi <= keys.len(),
    ensures
        r@.len() == hi - lo,
        picked(r@, lo as int, hi as int),
        falling(r@, keys@),
    decreases hi - lo,
{
    if hi - lo == 0 {
        Vec::new()
    } else if hi - lo == 1 {
        let mut r: Vec<usize> = Vec::new();
        r.push(lo);
        r
    } else {
        let mid: usize = lo + (hi - lo) / 2;
        let a = sort_range(keys, lo, mid);
        let b = sort_range(keys, mid, hi);
        merge(keys, &a, &b, lo, mid, hi)
    }
}

/// The indices of `keys`, those of large keys first.
pub fn largest_first(keys: &Vec<u64>) -> (r: Vec<usize>)
    ensures
        permutation(Seq::new(r@.len(), |i: int| r@[i] as int), keys@.len()),
        falling(r@, keys@),
{
    let r = sort_range(keys, 0, keys.len());
    let ghost p = Seq::new(r@.len(), |i: int| r@[i] as int);
    assert forall|i: int, j: int| 0 <= i < j < p.len() implies #[trigger] p[i] != #[trigger] p[j] by {
        assert(r@[i] != r@[j]);
    }
    r
}

/// A list in the order of a permutation holds just what the list held.
pub proof fn lemma_rearranged_contains<A>(new: Seq<A>, old: Seq<A>, x: A)
    requires
        rearranged(new, old),
    ensures
        new.contains(x) == old.contains(x),
{
    let p = choose|p: Seq<int>| reordered(new, old, p);
    if new.contains(x) {
        let i = choose|i: int| 0 <= i < new.len() && new[i] == x;
        assert(old[p[i]] == x);
    }
    if old.contains(x) {
        let k = choose|k: int| 0 <= k < old.len() && old[k] == x;
        lemma_permutation_onto(p, old.len(), k);
        let i = choose|i: int| 0 <= i < p.len() && p[i] == k;
        assert(new[i] == x);
    }
}

/// A permutation of `0..n` reaches each of `0..n`.
pub proof fn lemma_permutation_onto(p: Seq<int>, n: nat, k: int)
    requires
        permutation(p, n),
        0 <= k < n,
    ensures
        exists|i: int| 0 <= i < n && #[trigger] p[i] == k,
    decreases n,
{
    let last = p.last();
    if last == k {
        assert(p[n - 1] == k);
    } else {
        // Put the value n - 1 where the last one was taken from, and drop the last.
        let q = p.drop_last().map_values(|v: int| if v == n - 1 {
            last
        } else {
            v
        });
        assert forall|i: int| 0 <= i < n - 1 implies 0 <= #[trigger] q[i] < n - 1 by {
            assert(p[i] != p[n - 1]);
            assert(0 <= p[i] < n);
            assert(0 <= p[n - 1] < n);
        }
        assert forall|i: int, j: int| 0 <= i < j < n - 1 implies #[trigger] q[i] != #[trigger] q[j] by {
            assert(p[i] != p[j]);
            assert(p[i] != p[n - 1]);
            assert(p[j] != p[n - 1]);
        }
        assert(permutation(q, (n - 1) as nat));
        let k2 = if k == n - 1 {
            last
        } else {
            k
        };
        assert(0 <= p[n - 1] < n);
        lemma_permutation_onto(q, (n - 1) as nat, k2);
        let i = choose|i: int| 0 <= i < n - 1 && #[trigger] q[i] == k2;
        assert(p[i] != p[n - 1]);
        assert(p[i] == k);
    }
}

/// The sum of what `f` makes of the elements.
pub open spec fn sum_of<A>(s: Seq<A>, f: spec_fn(A) -> nat) -> nat
    decreases s.len(),
{
    if s.len() == 0 {
        0
    } else {
        sum_of(s.drop_last(), f) + f(s.last())
    }
}

proof fn lemma_sum_remove<A>(s: Seq<A>, f: spec_fn(A) -> nat, k: int)
    requires
        0 <= k < s.len(),
    ensures
        sum_of(s, f) == sum_of(s.remove(k), f) + f(s[k]),
    decreases s.len(),
{
    if k == s.len() - 1 {
        assert(s.remove(k) =~= s.drop_last());
    } else {
        lemma_sum_remove(s.drop_last(), f, k);
        assert(s.remove(k).drop_last() =~= s.drop_last().remove(k));
        assert(s.remove(k).last() == s.last());
    }
}

/// Reordering does not change a sum.
pub proof fn lemma_rearranged_sum<A>(new: Seq<A>, old: Seq<A>, f: spec_fn(A) -> nat)
    requires
        rearranged(new, old),
    ensures
        sum_of(new, f) == sum_of(old, f),
    decreases new.len(),
{
    let p = choose|p: Seq<int>| reordered(new, old, p);
    if new.len() > 0 {
        let n = new.len();
        let k = p[n - 1];
        assert(0 <= k < n);
        lemma_sum_remove(old, f, k);
        let rest = old.remove(k);
        let q = p.drop_last().map_values(|v: int| if v > k {
            v - 1
        } else {
            v
        });
        assert forall|i: int| 0 <= i < n - 1 implies 0 <= #[trigger] q[i] < n - 1 by {
            assert(p[i] != p[n - 1]);
            assert(0 <= p[i] < n);
        }
        assert forall|i: int, j: int| 0 <= i < j < n - 1 implies #[trigger] q[i] != #[trigger] q[j] by {
            assert(p[i] != p[j]);
            assert(p[i] != p[n - 1]);
            assert(p[j] != p[n - 1]);
        }
        assert(permutation(q, rest.len()));
        assert forall|i: int| 0 <= i < n - 1 implies #[trigger] new.drop_last()[i] == rest[q[i]] by {
            assert(p[i] != p[n - 1]);
            assert(new[i] == old[p[i]]);
        }
        assert(reordered(new.drop_last(), rest, q));
        lemma_rearranged_sum(new.drop_last(), rest, f);
        assert(new[n - 1] == old[k]);
    }
}

/// Whether no element occurs twice.
pub open spec fn distinct<A>(s: Seq<A>) -> bool {
    forall|i: int, j: int| 0 <= i < j < s.len() ==> #[trigger] s[i] != #[trigger] s[j]
}

proof fn lemma_sum_same<A>(s: Seq<A>, f: spec_fn(A) -> nat, g: spec_fn(A) -> nat)
    requires
        forall|k: int| 0 <= k < s.len() ==> f(#[trigger] s[k]) == g(s[k]),
    ensures
        sum_of(s, f) == sum_of(s, g),
    decreases s.len(),
{
    if s.len() > 0 {
        assert forall|k: int| 0 <= k < s.len() - 1 implies f(#[trigger] s.drop_last()[k]) == g(
            s.drop_last()[k],
        ) by {
            assert(s.drop_last()[k] == s[k]);
        }
        lemma_sum_same(s.drop_last(), f, g);
        assert(s.last() == s[s.len() - 1]);
    }
}

/// Some of the elements come to no more than all of them.
pub proof fn lemma_picked_sum<A>(s: Seq<A>, picked: Seq<int>, f: spec_fn(A) -> nat)
    requires
        distinct(picked),
        forall|k: int| 0 <= k < picked.len() ==> 0 <= #[trigger] picked[k] < s.len(),
    ensures
        sum_of(picked, |i: int| f(s[i])) <= sum_of(s, f),
    decreases s.len(),
{
    let g = |i: int| f(s[i]);
    if s.len() == 0 {
        if picked.len() > 0 {
            assert(0 <= picked[0] < s.len());
        }
    } else {
        let n = s.len() - 1;
        let less = s.drop_last();
        let h = |i: int| f(less[i]);
        if picked.contains(n) {
            let k = choose|k: int| 0 <= k < picked.len() && picked[k] == n;
            let rest = picked.remove(k);
            assert forall|j: int| 0 <= j < rest.len() implies 0 <= #[trigger] rest[j] < n by {
                if j < k {
                    assert(rest[j] == picked[j]);
                    assert(picked[j] != picked[k]);
                } else {
                    assert(rest[j] == picked[j + 1]);
                    assert(picked[k] != picked[j + 1]);
                }
            }
            assert forall|i: int, j: int| 0 <= i < j < rest.len() implies #[trigger] rest[i]
                != #[trigger] rest[j] by {
                let i2 = if i < k {
                    i
                } else {
                    i + 1
                };
                let j2 = if j < k {
                    j
                } else {
                    j + 1
                };
                assert(picked[i2] != picked[j2]);
            }
            lemma_picked_sum(less, rest, f);
            lemma_sum_remove(picked, g, k);
            lemma_sum_same(rest, g, h);
        } else {
            assert forall|j: int| 0 <= j < picked.len() implies 0 <= #[trigger] picked[j] < n by {
                assert(picked.contains(picked[j]));
            }
            lemma_picked_sum(less, picked, f);
            lemma_sum_same(picked, g, h);
        }
    }
}

} // verus!
