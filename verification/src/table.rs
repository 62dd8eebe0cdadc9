//! The baby-step lookup table: a chained hash table from group elements to
//! exponents, bucketed by the element's lowest digit. A later insertion for
//! the same value replaces the earlier one, as seen through `lookup`.
use crate::uint::Uint;
use vstd::prelude::*;

verus! {

/// The bucket that holds elements of value `k` in a table with `nb` buckets.
pub open spec fn bucket_of(k: nat, nb: nat) -> int
    recommends
        nb > 0,
{
    ((k % 0x1_0000_0000) % nb) as int
}

/// The exponent of the last entry with key value `k`, scanning from the end.
pub open spec fn last_match(s: Seq<(Uint, u64)>, k: nat) -> Option<nat>
    decreases s.len(),
{
    if s.len() == 0 {
        None
    } else if s.last().0@ == k {
        Some(s.last().1 as nat)
    } else {
        last_match(s.drop_last(), k)
    }
}

/// A mapping from group-element values to the exponent last written for them.
pub struct Table {
    buckets: Vec<Vec<(Uint, u64)>>,
}

impl Table {
    /// Number of buckets, fixed at construction.
    pub closed spec fn num_buckets(&self) -> nat {
        self.buckets@.len()
    }

    /// Every entry is canonical and sits in the bucket its value selects.
    pub closed spec fn inv(&self) -> bool {
        &&& self.buckets@.len() >= 1
        &&& forall|b: int, q: int|
            0 <= b < self.buckets@.len() && 0 <= q < self.buckets@[b]@.len() ==> {
                &&& (#[trigger] self.buckets@[b]@[q]).0.wf()
                &&& bucket_of(self.buckets@[b]@[q].0@, self.buckets@.len()) == b
            }
    }

    /// The exponent stored for value `k`: the last writer's.
    pub closed spec fn lookup(&self, k: nat) -> Option<nat> {
        last_match(self.buckets@[bucket_of(k, self.buckets@.len())]@, k)
    }

    /// An empty table with `nb` buckets.
    pub fn new(nb: usize) -> (r: Table)
        requires
            nb >= 1,
        ensures
            r.inv(),
            r.num_buckets() == nb,
            forall|k: nat| r.lookup(k) is None,
    {
        let mut buckets: Vec<Vec<(Uint, u64)>> = Vec::new();
        while buckets.len() < nb
            invariant
                buckets@.len() <= nb,
                forall|b: int| 0 <= b < buckets@.len() ==> (#[trigger] buckets@[b])@.len() == 0,
            decreases nb - buckets.len(),
        {
            buckets.push(Vec::new());
        }
        Table { buckets }
    }

    /// Records that `e` is the power with exponent `j`; a later record for
    /// the same value wins.
    pub fn insert(&mut self, e: Uint, j: u64)
        requires
            old(self).inv(),
            e.wf(),
        ensures
            final(self).inv(),
            final(self).num_buckets() == old(self).num_buckets(),
            forall|k: nat|
                final(self).lookup(k) == (if k == e@ {
                    Some(j as nat)
                } else {
                    old(self).lookup(k)
                }),
    {
        let nb = self.buckets.len();
        let low = e.low_digit();
        let b: usize = (low as usize) % nb;
        proof {
            assert(b as int == bucket_of(e@, self.buckets@.len()));
        }
        let ghost oldbuckets = self.buckets@;
        let ghost oldbucket = self.buckets@[b as int]@;
        let bucket = &mut self.buckets[b];
        bucket.push((e, j));
        proof {
            let newb = self.buckets@;
            assert(newb =~= oldbuckets.update(b as int, newb[b as int]));
            assert(newb[b as int]@ =~= oldbucket.push((e, j)));
            let s = newb[b as int]@;
            assert(s.last() == (e, j));
            assert(s.drop_last() =~= oldbucket);
            assert forall|k: nat|
                final(self).lookup(k) == (if k == e@ {
                    Some(j as nat)
                } else {
                    old(self).lookup(k)
                }) by {
                if bucket_of(k, newb.len()) == b as int {
                    if k == e@ {
                        assert(last_match(s, k) == Some(j as nat));
                    } else {
                        assert(s.last().0@ != k);
                        assert(last_match(s, k) == last_match(oldbucket, k));
                    }
                } else {
                    assert(newb[bucket_of(k, newb.len())] == oldbuckets[bucket_of(
                        k,
                        oldbuckets.len(),
                    )]);
                }
            }
        }
    }

    /// The exponent recorded for the value of `e`, if any.
    pub fn get(&self, e: &Uint) -> (r: Option<u64>)
        requires
            self.inv(),
            e.wf(),
        ensures
            match r {
                Some(j) => self.lookup(e@) == Some(j as nat),
                None => self.lookup(e@) is None,
            },
    {
        let nb = self.buckets.len();
        let low = e.low_digit();
        let b: usize = (low as usize) % nb;
        proof {
            assert(b as int == bucket_of(e@, self.buckets@.len()));
        }
        let ghost s = self.buckets@[b as int]@;
        let mut idx: usize = self.buckets[b].len();
        proof {
            assert(s.take(s.len() as int) =~= s);
        }
        while idx > 0
            invariant
                idx <= s.len(),
                s == self.buckets@[b as int]@,
                self.inv(),
                e.wf(),
                0 <= b < self.buckets@.len(),
                b as int == bucket_of(e@, self.buckets@.len()),
                last_match(s, e@) == last_match(s.take(idx as int), e@),
            decreases idx,
        {
            let pair = &self.buckets[b][idx - 1];
            proof {
                assert(s.take(idx as int).last() == s[idx - 1]);
                assert(s.take(idx as int).drop_last() =~= s.take(idx as int - 1));
                assert((self.buckets@[b as int]@[idx - 1]).0.wf());
            }
            if pair.0.same_value(e) {
                return Some(pair.1);
            }
            idx = idx - 1;
        }
        proof {
            assert(s.take(0) =~= Seq::<(Uint, u64)>::empty());
        }
        None
    }
}

} // verus!
