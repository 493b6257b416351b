//! Finding a path in a list of paths.

use std::collections::HashMap;

use vstd::prelude::*;

use crate::path::PathBuf;
use crate::path::PathView;
use crate::plan::path_views;

verus! {

spec fn mix(h: u64, b: u64) -> u64 {
    h.wrapping_mul(0x100_0000_01b3u64).wrapping_add(b)
}

spec fn mix_name(h: u64, name: Seq<u8>) -> u64
    decreases name.len(),
{
    if name.len() == 0 {
        mix(h, 256)
    } else {
        mix_name(mix(h, name[0] as u64), name.skip(1))
    }
}

spec fn mix_parts(parts: Seq<Seq<u8>>) -> u64
    decreases parts.len(),
{
    if parts.len() == 0 {
        0
    } else {
        mix_name(mix_parts(parts.drop_last()), parts.last())
    }
}

fn mixed_name(h: u64, name: &Vec<u8>) -> (r: u64)
    ensures
        r == mix_name(h, name@),
{
    let mut x: u64 = h;
    let mut i: usize = 0;
    assert(name@.skip(0) =~= name@);
    while i < name.len()
        invariant
            0 <= i <= name.len(),
            mix_name(h, name@) == mix_name(x, name@.skip(i as int)),
        decreases name.len() - i,
    {
        assert(name@.skip(i as int)[0] == name@[i as int]);
        assert(name@.skip(i as int).skip(1) =~= name@.skip(i + 1));
        x = x.wrapping_mul(0x100_0000_01b3u64).wrapping_add(name[i] as u64);
        i = i + 1;
    }
    x.wrapping_mul(0x100_0000_01b3u64).wrapping_add(256)
}

fn mixed(p: &PathBuf) -> (r: u64)
    ensures
        r == mix_parts(p@.parts),
{
    let mut x: u64 = 0;
    let mut i: usize = 0;
    assert(p@.parts.take(0) =~= Seq::<Seq<u8>>::empty());
    while i < p.parts.len()
        invariant
            0 <= i <= p.parts.len(),
            x == mix_parts(p@.parts.take(i as int)),
        decreases p.parts.len() - i,
    {
        assert(p@.parts.take(i + 1).drop_last() =~= p@.parts.take(i as int));
        assert(p@.parts.take(i + 1).last() == p@.parts[i as int]);
        x = mixed_name(x, &p.parts[i]);
        i = i + 1;
    }
    assert(p@.parts.take(i as int) =~= p@.parts);
    x
}

/// A list of paths that can be searched.
pub struct PathIndex {
    paths: Vec<PathBuf>,
    buckets: HashMap<u64, Vec<usize>>,
}

impl View for PathIndex {
    type V = Seq<PathView>;

    closed spec fn view(&self) -> Seq<PathView> {
        path_views(self.paths@)
    }
}

impl PathIndex {
    /// That every path is in its bucket.
    pub closed spec fn wf(&self) -> bool {
        &&& forall|i: int| 0 <= i < self.paths.len() ==> #[trigger] self.filed(i)
        &&& forall|k: u64, n: int|
            #![trigger self.buckets@[k]@[n]]
            self.buckets@.dom().contains(k) && 0 <= n < self.buckets@[k]@.len()
                ==> self.buckets@[k]@[n] < self.paths.len()
    }

    spec fn filed(&self, i: int) -> bool {
        let k = mix_parts(self@[i].parts);
        self.buckets@.dom().contains(k) && exists|n: int|
            0 <= n < self.buckets@[k]@.len() && #[trigger] self.buckets@[k]@[n] == i
    }

    /// A list with nothing in it.
    pub fn new() -> (r: PathIndex)
        ensures
            r.wf(),
            r@ == Seq::<PathView>::empty(),
    {
        broadcast use vstd::std_specs::hash::group_hash_axioms;

        let r = PathIndex { paths: Vec::new(), buckets: HashMap::new() };
        assert(r@ =~= Seq::<PathView>::empty());
        r
    }

    /// How many paths there are.
    pub fn len(&self) -> (r: usize)
        ensures
            r == self@.len(),
    {
        self.paths.len()
    }

    /// The path at a place.
    pub fn get(&self, i: usize) -> (r: &PathBuf)
        requires
            i < self@.len(),
        ensures
            r@ == self@[i as int],
    {
        &self.paths[i]
    }

    /// Where a path is, where it is there.
    pub fn find(&self, p: &PathBuf) -> (r: Option<usize>)
        requires
            self.wf(),
        ensures
            match r {
                Some(i) => i < self@.len() && self@[i as int] == p@,
                None => !self@.contains(p@),
            },
    {
        broadcast use vstd::std_specs::hash::group_hash_axioms;

        let k = mixed(p);
        match self.buckets.get(&k) {
            None => {
                assert forall|i: int| 0 <= i < self@.len() implies self@[i] != p@ by {
                    assert(self.filed(i));
                }
                None
            },
            Some(b) => {
                let mut n: usize = 0;
                while n < b.len()
                    invariant
                        self.wf(),
                        self.buckets@.dom().contains(k),
                        self.buckets@[k] == *b,
                        0 <= n <= b.len(),
                        forall|m: int|
                            0 <= m < n ==> self@[(#[trigger] b@[m]) as int] != p@,
                    decreases b.len() - n,
                {
                    assert(self.buckets@[k]@[n as int] < self.paths.len());
                    if self.paths[b[n]].same(p) {
                        return Some(b[n]);
                    }
                    n = n + 1;
                }
                assert forall|i: int| 0 <= i < self@.len() implies self@[i] != p@ by {
                    assert(self.filed(i));
                    if self@[i] == p@ {
                        let m = choose|m: int|
                            0 <= m < self.buckets@[k]@.len() && #[trigger] self.buckets@[k]@[m] == i;
                        assert(self@[b@[m] as int] != p@);
                    }
                }
                None
            },
        }
    }

    /// Adds a path at the end.
    pub fn push(&mut self, p: PathBuf)
        requires
            old(self).wf(),
        ensures
            final(self).wf(),
            final(self)@ == old(self)@.push(p@),
    {
        broadcast use vstd::std_specs::hash::group_hash_axioms;

        let k = mixed(&p);
        let i: usize = self.paths.len();
        let mut b = match self.buckets.remove(&k) {
            Some(b) => b,
            None => Vec::new(),
        };
        let ghost b0 = b@;
        b.push(i);
        self.buckets.insert(k, b);
        self.paths.push(p);
        assert(self@ =~= old(self)@.push(p@));
        assert forall|j: int| 0 <= j < self.paths.len() implies #[trigger] self.filed(j) by {
            let kj = mix_parts(self@[j].parts);
            if j == i {
                assert(self.buckets@[k]@[b0.len() as int] == i);
            } else {
                assert(old(self).filed(j));
                assert(old(self)@[j] == self@[j]);
                let n = choose|n: int|
                    0 <= n < old(self).buckets@[kj]@.len() && #[trigger] old(self).buckets@[kj]@[n] == j;
                if kj == k {
                    assert(b0 == old(self).buckets@[k]@);
                    assert(self.buckets@[k]@[n] == j);
                } else {
                    assert(self.buckets@[kj]@[n] == j);
                }
            }
        }
        assert forall|q: u64, n: int|
            #![trigger self.buckets@[q]@[n]]
            self.buckets@.dom().contains(q) && 0 <= n < self.buckets@[q]@.len() implies self.buckets@[q]@[n]
            < self.paths.len() by {
            if q == k {
                if n < b0.len() {
                    assert(old(self).buckets@[k]@[n] < i);
                }
            } else {
                assert(old(self).buckets@[q]@[n] < i);
            }
        }
    }
}

} // verus!
