use std::collections::HashMap;
use vstd::prelude::*;

verus! {

broadcast use vstd::std_specs::hash::group_hash_axioms;

/// Bucket of a key: its entries folded with multiplier 31, modulo 2^64.
pub open spec fn fingerprint(s: Seq<usize>) -> u64
    decreases s.len(),
{
    if s.len() == 0 {
        0
    } else {
        ((fingerprint(s.drop_last()) as int * 31 + s.last() as int) % 0x1_0000_0000_0000_0000) as u64
    }
}

/// A set of keys (sequences of integers), kept in buckets by fingerprint.
pub struct StateSet {
    buckets: HashMap<u64, Vec<Vec<usize>>>,
    contents: Ghost<Set<Seq<usize>>>,
}

impl StateSet {
    /// The keys in the set.
    pub closed spec fn view(&self) -> Set<Seq<usize>> {
        self.contents@
    }

    /// Every key sits in the bucket of its fingerprint, and every key of a
    /// bucket is in the set.
    pub closed spec fn wf(&self) -> bool {
        &&& self.contents@.finite()
        &&& forall|h: u64, k: int|
            #![trigger self.buckets@[h]@[k]]
            self.buckets@.contains_key(h) && 0 <= k < self.buckets@[h]@.len() ==> fingerprint(
                self.buckets@[h]@[k]@,
            ) == h && self.contents@.contains(self.buckets@[h]@[k]@)
        &&& forall|s: Seq<usize>|
            #[trigger] self.contents@.contains(s) ==> self.buckets@.contains_key(fingerprint(s))
                && exists|k: int|
                0 <= k < self.buckets@[fingerprint(s)]@.len() && #[trigger] self.buckets@[fingerprint(
                    s,
                )]@[k]@ == s
    }

    pub fn new() -> (r: StateSet)
        ensures
            r.wf(),
            r@ == Set::<Seq<usize>>::empty(),
    {
        StateSet { buckets: HashMap::new(), contents: Ghost(Set::empty()) }
    }

    fn fingerprint_of(key: &Vec<usize>) -> (r: u64)
        ensures
            r == fingerprint(key@),
    {
        let mut h: u64 = 0;
        let mut i: usize = 0;
        while i < key.len()
            invariant
                i <= key@.len(),
                h == fingerprint(key@.subrange(0, i as int)),
            decreases key@.len() - i,
        {
            let next = ((h as u128) * 31 + (key[i] as u128)) % 0x1_0000_0000_0000_0000u128;
            proof {
                let s = key@.subrange(0, i + 1);
                assert(s.drop_last() =~= key@.subrange(0, i as int));
                assert(s.last() == key@[i as int]);
            }
            h = next as u64;
            i += 1;
        }
        assert(key@.subrange(0, i as int) =~= key@);
        h
    }

    fn same_key(a: &Vec<usize>, b: &Vec<usize>) -> (r: bool)
        ensures
            r == (a@ == b@),
    {
        if a.len() != b.len() {
            return false;
        }
        let mut i: usize = 0;
        while i < a.len()
            invariant
                a@.len() == b@.len(),
                i <= a@.len(),
                forall|k: int| 0 <= k < i ==> a@[k] == b@[k],
            decreases a@.len() - i,
        {
            if a[i] != b[i] {
                return false;
            }
            i += 1;
        }
        assert(a@ =~= b@);
        true
    }

    /// True iff `key` is in the set.
    pub fn contains(&self, key: &Vec<usize>) -> (r: bool)
        requires
            self.wf(),
        ensures
            r == self@.contains(key@),
    {
        let h = Self::fingerprint_of(key);
        match self.buckets.get(&h) {
            None => false,
            Some(bucket) => {
                let mut k: usize = 0;
                while k < bucket.len()
                    invariant
                        self.wf(),
                        self.buckets@.contains_key(h),
                        *bucket == self.buckets@[h],
                        h == fingerprint(key@),
                        k <= bucket@.len(),
                        forall|j: int| 0 <= j < k ==> bucket@[j]@ != key@,
                    decreases bucket@.len() - k,
                {
                    if Self::same_key(&bucket[k], key) {
                        assert(self.buckets@[h]@[k as int]@ == key@);
                        return true;
                    }
                    k += 1;
                }
                false
            },
        }
    }

    /// Adds `key` to the set.
    pub fn insert(&mut self, key: Vec<usize>)
        requires
            old(self).wf(),
        ensures
            final(self).wf(),
            final(self)@ == old(self)@.insert(key@),
    {
        let h = Self::fingerprint_of(&key);
        let ghost old_buckets = self.buckets@;
        let ghost kv = key@;
        let bucket = match self.buckets.remove(&h) {
            None => {
                let mut b: Vec<Vec<usize>> = Vec::new();
                b.push(key);
                b
            },
            Some(b0) => {
                let mut b = b0;
                b.push(key);
                b
            },
        };
        let ghost blen = bucket@.len();
        assert(bucket@[blen - 1]@ == kv);
        self.buckets.insert(h, bucket);
        self.contents = Ghost(self.contents@.insert(kv));
        assert forall|s: Seq<usize>| #[trigger] self.contents@.contains(s) implies self.buckets@.contains_key(
            fingerprint(s),
        ) && exists|k: int|
            0 <= k < self.buckets@[fingerprint(s)]@.len() && #[trigger] self.buckets@[fingerprint(
                s,
            )]@[k]@ == s by {
            if s == kv {
                assert(self.buckets@[h]@[blen - 1]@ == s);
            } else {
                let f = fingerprint(s);
                let k = choose|k: int| 0 <= k < old_buckets[f]@.len() && #[trigger] old_buckets[f]@[k]@ == s;
                assert(self.buckets@[f]@[k]@ == s);
            }
        }
        assert forall|g: u64, k: int|
            self.buckets@.contains_key(g) && 0 <= k < self.buckets@[g]@.len() implies fingerprint(
            #[trigger] self.buckets@[g]@[k]@,
        ) == g && self.contents@.contains(self.buckets@[g]@[k]@) by {
            if g == h && k < blen - 1 {
                assert(self.buckets@[g]@[k] == old_buckets[g]@[k]);
            }
        }
    }
}

} // verus!
