//! One side of the book: price levels in strictly ascending price order,
//! each holding a FIFO queue of arena slot indices.
//!
//! The structure here is purely positional; which orders the slots stand
//! for, and the invariants tying them to the store, live with the engine.

use vstd::prelude::*;

verus! {

/// A price level: a price and the FIFO queue of slots resting at it.
/// Queues may be left empty transiently; the engine skips them.
#[derive(Debug)]
pub struct PriceLevel {
    /// The price of this level.
    pub price: u64,
    /// Slots of the orders resting here, front first.
    pub queue: Vec<usize>,
}

/// Levels are sorted strictly ascending by price.
pub open spec fn prices_sorted(levels: Seq<PriceLevel>) -> bool {
    forall|i: int, j: int|
        0 <= i < j < levels.len() ==> (#[trigger] levels[i]).price < (#[trigger] levels[j]).price
}

/// A queue with every occurrence of one slot removed, the order of the
/// rest kept.
pub open spec fn remove_all(q: Seq<usize>, slot: usize) -> Seq<usize>
    decreases q.len(),
{
    if q.len() == 0 {
        Seq::empty()
    } else if q.last() == slot {
        remove_all(q.drop_last(), slot)
    } else {
        remove_all(q.drop_last(), slot).push(q.last())
    }
}

/// What `remove_all` keeps: everything but the removed slot, order and
/// multiplicity untouched, and never more than was there.
pub proof fn lemma_remove_all(q: Seq<usize>, slot: usize)
    ensures
        remove_all(q, slot).len() <= q.len(),
        forall|k: int|
            0 <= k < remove_all(q, slot).len() ==> q.contains(#[trigger] remove_all(q, slot)[k])
                && remove_all(q, slot)[k] != slot,
        forall|x: usize|
            #![trigger q.contains(x)]
            #![trigger remove_all(q, slot).contains(x)]
            x != slot ==> (q.contains(x) <==> remove_all(q, slot).contains(x)),
    decreases q.len(),
{
    if q.len() > 0 {
        let t = q.drop_last();
        lemma_remove_all(t, slot);
        assert forall|x: usize| t.contains(x) implies q.contains(x) by {
            let k = choose|k: int| 0 <= k < t.len() && t[k] == x;
            assert(q[k] == x);
        }
        let r = remove_all(q, slot);
        if q.last() == slot {
            assert(r == remove_all(t, slot));
            assert forall|x: usize| x != slot && q.contains(x) implies r.contains(x) by {
                let k = choose|k: int| 0 <= k < q.len() && q[k] == x;
                assert(k < q.len() - 1);
                assert(t[k] == x);
                assert(t.contains(x));
            }
        } else {
            let rt = remove_all(t, slot);
            assert(r == rt.push(q.last()));
            assert forall|x: usize| x != slot && q.contains(x) implies r.contains(x) by {
                let k = choose|k: int| 0 <= k < q.len() && q[k] == x;
                if k < q.len() - 1 {
                    assert(t[k] == x);
                    assert(t.contains(x));
                    assert(rt.contains(x));
                    let m = choose|m: int| 0 <= m < rt.len() && rt[m] == x;
                    assert(r[m] == x);
                } else {
                    assert(r.last() == x);
                }
            }
            assert forall|x: usize| x != slot && r.contains(x) implies q.contains(x) by {
                let m = choose|m: int| 0 <= m < r.len() && r[m] == x;
                if m < r.len() - 1 {
                    assert(rt[m] == x);
                    let k = choose|k: int| 0 <= k < t.len() && t[k] == x;
                    assert(q[k] == x);
                } else {
                    assert(q.last() == x);
                }
            }
        }
    }
}

/// Removing a slot keeps a duplicate-free queue duplicate free.
pub proof fn lemma_remove_all_no_duplicates(q: Seq<usize>, slot: usize)
    requires
        q.no_duplicates(),
    ensures
        remove_all(q, slot).no_duplicates(),
    decreases q.len(),
{
    if q.len() > 0 {
        let t = q.drop_last();
        assert forall|i: int, j: int| 0 <= i < j < t.len() implies t[i] != t[j] by {
            assert(q[i] == t[i] && q[j] == t[j]);
        }
        lemma_remove_all_no_duplicates(t, slot);
        if q.last() != slot {
            lemma_remove_all(t, slot);
            if remove_all(t, slot).contains(q.last()) {
                assert(t.contains(q.last()));
                let k = choose|k: int| 0 <= k < t.len() && t[k] == q.last();
                assert(q[k] == q[q.len() - 1]);
                assert(false);
            }
        }
    }
}

/// One side of the book.
#[derive(Debug)]
pub struct BookSide {
    /// The price levels, strictly ascending by price.
    pub levels: Vec<PriceLevel>,
}

impl BookSide {
    /// Whether some level carries this price.
    pub open spec fn has_price(self, price: u64) -> bool {
        exists|i: int| 0 <= i < self.levels@.len() && (#[trigger] self.levels@[i]).price == price
    }

    /// An empty side.
    pub fn new() -> (r: BookSide)
        ensures
            r.levels@.len() == 0,
    {
        BookSide { levels: Vec::new() }
    }

    /// Finds the level at this price, if one exists.
    pub fn find_level(&self, price: u64) -> (r: Option<usize>)
        ensures
            match r {
                Some(i) => i < self.levels@.len() && self.levels@[i as int].price == price,
                None => !self.has_price(price),
            },
    {
        let mut i: usize = 0;
        while i < self.levels.len()
            invariant
                i <= self.levels@.len(),
                forall|k: int| 0 <= k < i ==> (#[trigger] self.levels@[k]).price != price,
            decreases self.levels@.len() - i,
        {
            if self.levels[i].price == price {
                return Some(i);
            }
            i += 1;
        }
        None
    }

    /// Appends a slot at the back of the queue at `price`, creating the
    /// level at its sorted position when it is missing; new queues are
    /// allocated with the given capacity hint. Returns the level's index.
    pub fn push_back(&mut self, price: u64, slot: usize, capacity: usize) -> (idx: usize)
        requires
            prices_sorted(old(self).levels@),
        ensures
            prices_sorted(final(self).levels@),
            idx < final(self).levels@.len(),
            final(self).levels@[idx as int].price == price,
            if old(self).has_price(price) {
                &&& final(self).levels@.len() == old(self).levels@.len()
                &&& idx < old(self).levels@.len()
                &&& old(self).levels@[idx as int].price == price
                &&& final(self).levels@[idx as int].queue@ == old(self).levels@[
                    idx as int
                ].queue@.push(slot)
                &&& forall|j: int|
                    0 <= j < old(self).levels@.len() && j != idx ==> final(self).levels@[j] == old(
                        self,
                    ).levels@[j]
            } else {
                &&& final(self).levels@.len() == old(self).levels@.len() + 1
                &&& idx <= old(self).levels@.len()
                &&& final(self).levels@[idx as int].queue@ == seq![slot]
                &&& forall|j: int| 0 <= j < idx ==> final(self).levels@[j] == old(self).levels@[j]
                &&& forall|j: int|
                    idx < j < final(self).levels@.len() ==> final(self).levels@[j] == old(
                        self,
                    ).levels@[j - 1]
                &&& forall|j: int|
                    0 <= j < idx ==> (#[trigger] old(self).levels@[j]).price < price
                &&& forall|j: int|
                    idx <= j < old(self).levels@.len() ==> (#[trigger] old(self).levels@[j]).price
                        > price
            },
    {
        let mut i: usize = 0;
        while i < self.levels.len() && self.levels[i].price < price
            invariant
                i <= self.levels@.len(),
                forall|k: int| 0 <= k < i ==> (#[trigger] self.levels@[k]).price < price,
            decreases self.levels@.len() - i,
        {
            i += 1;
        }
        if i < self.levels.len() && self.levels[i].price == price {
            let mut level = self.levels.remove(i);
            level.queue.push(slot);
            self.levels.insert(i, level);
            proof {
                assert(self.levels@ =~= old(self).levels@.update(i as int, self.levels@[i as int]));
            }
            i
        } else {
            proof {
                if old(self).has_price(price) {
                    let k = choose|k: int|
                        0 <= k < old(self).levels@.len() && (#[trigger] old(self).levels@[k]).price
                            == price;
                    assert(k >= i);
                    if k > i {
                        assert(old(self).levels@[i as int].price < old(self).levels@[k].price);
                    }
                    assert(false);
                }
            }
            let mut queue: Vec<usize> = Vec::with_capacity(capacity);
            queue.push(slot);
            self.levels.insert(i, PriceLevel { price, queue });
            i
        }
    }

    /// Removes every occurrence of a slot from the queue of the level at
    /// `idx`, keeping the order of the rest; prices and the other levels
    /// stay untouched.
    pub fn remove_slot(&mut self, idx: usize, slot: usize)
        requires
            idx < old(self).levels@.len(),
        ensures
            final(self).levels@.len() == old(self).levels@.len(),
            forall|j: int|
                0 <= j < old(self).levels@.len() && j != idx ==> final(self).levels@[j] == old(
                    self,
                ).levels@[j],
            final(self).levels@[idx as int].price == old(self).levels@[idx as int].price,
            final(self).levels@[idx as int].queue@ == remove_all(
                old(self).levels@[idx as int].queue@,
                slot,
            ),
    {
        let mut level = self.levels.remove(idx);
        let ghost q = level.queue@;
        let mut kept: Vec<usize> = Vec::new();
        let mut k: usize = 0;
        while k < level.queue.len()
            invariant
                k <= q.len(),
                level.queue@ == q,
                kept@ == remove_all(q.take(k as int), slot),
            decreases q.len() - k,
        {
            proof {
                assert(q.take(k + 1).drop_last() =~= q.take(k as int));
                assert(q.take(k + 1).last() == q[k as int]);
            }
            if level.queue[k] != slot {
                kept.push(level.queue[k]);
            }
            k += 1;
        }
        proof {
            assert(q.take(q.len() as int) =~= q);
        }
        level.queue = kept;
        self.levels.insert(idx, level);
        proof {
            assert(self.levels@ =~= old(self).levels@.update(idx as int, self.levels@[idx as int]));
        }
    }
}

impl BookSide {
    /// A copy whose levels read the same: equal prices, equal queues.
    pub fn clone_side(&self) -> (r: BookSide)
        ensures
            r.levels@.len() == self.levels@.len(),
            forall|i: int|
                0 <= i < self.levels@.len() ==> (#[trigger] r.levels@[i]).price
                    == self.levels@[i].price && r.levels@[i].queue@ == self.levels@[i].queue@,
    {
        let mut levels: Vec<PriceLevel> = Vec::new();
        let mut i: usize = 0;
        while i < self.levels.len()
            invariant
                i <= self.levels@.len(),
                levels@.len() == i,
                forall|k: int|
                    0 <= k < i ==> (#[trigger] levels@[k]).price == self.levels@[k].price
                        && levels@[k].queue@ == self.levels@[k].queue@,
            decreases self.levels@.len() - i,
        {
            let mut queue: Vec<usize> = Vec::new();
            let mut k: usize = 0;
            while k < self.levels[i].queue.len()
                invariant
                    i < self.levels@.len(),
                    k <= self.levels@[i as int].queue@.len(),
                    queue@ == self.levels@[i as int].queue@.take(k as int),
                decreases self.levels@[i as int].queue@.len() - k,
            {
                queue.push(self.levels[i].queue[k]);
                proof {
                    assert(queue@ =~= self.levels@[i as int].queue@.take(k + 1));
                }
                k += 1;
            }
            proof {
                assert(self.levels@[i as int].queue@.take(
                    self.levels@[i as int].queue@.len() as int,
                ) =~= self.levels@[i as int].queue@);
            }
            levels.push(PriceLevel { price: self.levels[i].price, queue });
            i += 1;
        }
        BookSide { levels }
    }
}

} // verus!
