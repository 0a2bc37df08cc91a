use vstd::prelude::*;

verus! {

/// Number of items in all the buckets.
pub open spec fn total<T>(v: Seq<Seq<T>>) -> int
    decreases v.len(),
{
    if v.len() == 0 {
        0
    } else {
        total(v.drop_last()) + v.last().len()
    }
}

pub proof fn lemma_total_update<T>(v: Seq<Seq<T>>, c: int, s: Seq<T>)
    requires
        0 <= c < v.len(),
    ensures
        total(v.update(c, s)) == total(v) - v[c].len() + s.len(),
    decreases v.len(),
{
    let w = v.update(c, s);
    if c < v.len() - 1 {
        assert(w.drop_last() =~= v.drop_last().update(c, s));
        lemma_total_update(v.drop_last(), c, s);
    } else {
        assert(w.drop_last() =~= v.drop_last());
    }
}

pub proof fn lemma_total_nonneg<T>(v: Seq<Seq<T>>)
    ensures
        total(v) >= 0,
    decreases v.len(),
{
    if v.len() > 0 {
        lemma_total_nonneg(v.drop_last());
    }
}

/// A priority queue of items in buckets indexed by priority; the lowest
/// non-empty bucket gives the next item.
pub struct Frontier<T> {
    buckets: Vec<Vec<T>>,
    lo: usize,
}

impl<T> Frontier<T> {
    /// The items, bucket by bucket.
    pub closed spec fn view(&self) -> Seq<Seq<T>> {
        self.buckets@.map_values(|b: Vec<T>| b@)
    }

    /// The buckets below `lo` are empty.
    pub closed spec fn wf(&self) -> bool {
        &&& self.lo <= self.buckets@.len()
        &&& forall|c: int| 0 <= c < self.lo ==> (#[trigger] self.buckets@[c])@.len() == 0
    }

    pub fn new() -> (r: Frontier<T>)
        ensures
            r.wf(),
            r@ == Seq::<Seq<T>>::empty(),
    {
        let r = Frontier { buckets: Vec::new(), lo: 0 };
        assert(r@ =~= Seq::<Seq<T>>::empty());
        r
    }

    /// Adds `item` with priority `prio`.
    pub fn push(&mut self, prio: usize, item: T)
        requires
            old(self).wf(),
            prio < usize::MAX,
        ensures
            final(self).wf(),
            final(self)@.len() == if prio < old(self)@.len() {
                old(self)@.len() as int
            } else {
                prio + 1
            },
            forall|c: int| 0 <= c < final(self)@.len() && c != prio ==> #[trigger] final(self)@[c] == (
                if c < old(self)@.len() {
                    old(self)@[c]
                } else {
                    Seq::empty()
                }),
            final(self)@[prio as int] == (if prio < old(self)@.len() {
                old(self)@[prio as int]
            } else {
                Seq::empty()
            }).push(item),
            total(final(self)@) == total(old(self)@) + 1,
    {
        let ghost v0 = self@;
        while self.buckets.len() <= prio
            invariant
                self.wf(),
                prio < usize::MAX,
                self@.len() >= v0.len(),
                forall|c: int| 0 <= c < self@.len() ==> #[trigger] self@[c] == (if c < v0.len() {
                    v0[c]
                } else {
                    Seq::empty()
                }),
                total(self@) == total(v0),
                v0.len() > prio ==> self@.len() == v0.len(),
                v0.len() <= prio ==> self@.len() <= prio + 1,
            decreases prio + 1 - self.buckets@.len(),
        {
            let ghost before = self@;
            let e: Vec<T> = Vec::new();
            self.buckets.push(e);
            assert(self@.drop_last() =~= before);
            assert(self@.last() == Seq::<T>::empty());
            assert forall|c: int| 0 <= c < self@.len() implies #[trigger] self@[c] == (if c < v0.len() {
                v0[c]
            } else {
                Seq::empty()
            }) by {
                if c < before.len() {
                    assert(self@[c] == before[c]);
                }
            }
        }
        let ghost mid = self@;
        let mut b = Vec::new();
        std::mem::swap(&mut b, &mut self.buckets[prio]);
        b.push(item);
        std::mem::swap(&mut b, &mut self.buckets[prio]);
        proof {
            assert(self@ =~= mid.update(prio as int, mid[prio as int].push(item)));
            lemma_total_update(mid, prio as int, mid[prio as int].push(item));
        }
        if prio < self.lo {
            self.lo = prio;
        }
    }

    /// Removes an item of the lowest non-empty bucket and returns it with
    /// its priority, or `None` when all buckets are empty.
    pub fn pop(&mut self) -> (r: Option<(usize, T)>)
        requires
            old(self).wf(),
        ensures
            final(self).wf(),
            match r {
                None => final(self)@ == old(self)@ && forall|c: int|
                    0 <= c < old(self)@.len() ==> (#[trigger] old(self)@[c]).len() == 0,
                Some((prio, item)) => {
                    &&& prio < old(self)@.len()
                    &&& old(self)@[prio as int].len() > 0
                    &&& item == old(self)@[prio as int].last()
                    &&& final(self)@ == old(self)@.update(prio as int, old(self)@[prio as int].drop_last())
                    &&& forall|c: int| 0 <= c < prio ==> (#[trigger] old(self)@[c]).len() == 0
                    &&& total(final(self)@) == total(old(self)@) - 1
                },
            },
    {
        let mut c = self.lo;
        while c < self.buckets.len() && self.buckets[c].len() == 0
            invariant
                self.wf(),
                self.lo <= c <= self.buckets@.len(),
                forall|k: int| 0 <= k < c ==> (#[trigger] self.buckets@[k])@.len() == 0,
            decreases self.buckets@.len() - c,
        {
            c += 1;
        }
        if c == self.buckets.len() {
            self.lo = c;
            proof {
                assert forall|k: int| 0 <= k < self@.len() implies (#[trigger] self@[k]).len() == 0 by {
                    assert(self@[k] == self.buckets@[k]@);
                }
            }
            return None;
        }
        let ghost v0 = self@;
        let mut b = Vec::new();
        std::mem::swap(&mut b, &mut self.buckets[c]);
        let item = b.pop().unwrap();
        std::mem::swap(&mut b, &mut self.buckets[c]);
        self.lo = c;
        proof {
            assert(v0[c as int] == old(self).buckets@[c as int]@);
            assert(self@ =~= v0.update(c as int, v0[c as int].drop_last()));
            lemma_total_update(v0, c as int, v0[c as int].drop_last());
            assert forall|k: int| 0 <= k < c implies (#[trigger] v0[k]).len() == 0 by {
                assert(v0[k] == old(self).buckets@[k]@);
            }
        }
        Some((c, item))
    }
}

} // verus!
