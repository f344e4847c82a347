//! A price-keyed book of reduced order records: each price holds a FIFO of
//! `Order` values. A standalone structure for read-side aggregation; the
//! engine's own books live with the order store instead.

use vstd::prelude::*;

use crate::models::Order;

verus! {

/// One price level holding reduced order records.
#[derive(Debug)]
pub struct OrderLevel {
    /// The price of the level.
    pub price: u64,
    /// The resting orders, front first.
    pub queue: Vec<Order>,
}

/// Whether some level carries this price.
pub open spec fn pb_has_level(levels: Seq<OrderLevel>, price: u64) -> bool {
    exists|i: int| 0 <= i < levels.len() && (#[trigger] levels[i]).price == price
}

/// The queue at this price; empty when no level carries it.
pub open spec fn pb_queue_at(levels: Seq<OrderLevel>, price: u64) -> Seq<Order> {
    if pb_has_level(levels, price) {
        levels[choose|i: int| 0 <= i < levels.len() && (#[trigger] levels[i]).price == price].queue@
    } else {
        Seq::empty()
    }
}

/// The total quantity of a queue of reduced records.
pub open spec fn pb_queue_qty(q: Seq<Order>) -> int
    decreases q.len(),
{
    if q.len() == 0 {
        0
    } else {
        pb_queue_qty(q.drop_last()) + q.last().quantity
    }
}

/// A queue with every record of one id removed, the order of the rest
/// kept.
pub open spec fn pb_remove_id(q: Seq<Order>, id: u128) -> Seq<Order>
    decreases q.len(),
{
    if q.len() == 0 {
        Seq::empty()
    } else if q.last().id == id {
        pb_remove_id(q.drop_last(), id)
    } else {
        pb_remove_id(q.drop_last(), id).push(q.last())
    }
}

/// A book of reduced order records keyed by price, with a cached top.
#[derive(Debug)]
pub struct PriceBook {
    /// The cached best price; kept by the owner, not the book.
    pub top_price: Option<u64>,
    /// The price levels; every price appears at most once.
    pub levels: Vec<OrderLevel>,
}

impl PriceBook {
    /// The levels of the book.
    pub closed spec fn spec_levels(self) -> Seq<OrderLevel> {
        self.levels@
    }

    /// Each price appears on at most one level.
    pub open spec fn wf(self) -> bool {
        forall|i: int, j: int|
            0 <= i < j < self.spec_levels().len() ==> (#[trigger] self.spec_levels()[i]).price != (
            #[trigger] self.spec_levels()[j]).price
    }

    /// On a well-formed book, each level is the one its price reads.
    proof fn lemma_at(self, i: int)
        requires
            self.wf(),
            0 <= i < self.spec_levels().len(),
        ensures
            pb_has_level(self.spec_levels(), self.spec_levels()[i].price),
            pb_queue_at(self.spec_levels(), self.spec_levels()[i].price) == self.spec_levels()[
                i
            ].queue@,
    {
        let lv = self.spec_levels();
        assert(pb_has_level(lv, lv[i].price)) by {
            assert(0 <= i < lv.len() && lv[i].price == lv[i].price);
        }
        let j = choose|j: int| 0 <= j < lv.len() && (#[trigger] lv[j]).price == lv[i].price;
        if j != i {
            assert(lv[i].price != lv[j].price);
        }
    }

    /// An empty book with no cached top.
    pub fn new() -> (r: PriceBook)
        ensures
            r.wf(),
            r.top_price is None,
            r.spec_levels().len() == 0,
    {
        PriceBook { top_price: None, levels: Vec::new() }
    }

    /// Finds the level at this price, if one exists.
    fn find(&self, price: u64) -> (r: Option<usize>)
        ensures
            match r {
                Some(i) => i < self.spec_levels().len() && self.spec_levels()[i as int].price
                    == price,
                None => !pb_has_level(self.spec_levels(), price),
            },
    {
        let mut i: usize = 0;
        while i < self.levels.len()
            invariant
                i <= self.levels@.len(),
                forall|k: int| 0 <= k < i ==> (#[trigger] self.levels@[k]).price != price,
            decreases self.levels@.len() - i,
        {
            if self.levels[i].price == price {
                return Some(i);
            }
            i += 1;
        }
        proof {
            if pb_has_level(self.levels@, price) {
                let w = choose|w: int|
                    0 <= w < self.levels@.len() && (#[trigger] self.levels@[w]).price == price;
                assert(false);
            }
        }
        None
    }

    /// Appends an order at the back of the queue at `price`, creating the
    /// level when it is missing; every other price keeps its queue.
    pub fn insert(&mut self, price: u64, order: Order)
        requires
            old(self).wf(),
        ensures
            final(self).wf(),
            final(self).top_price == old(self).top_price,
            pb_queue_at(final(self).spec_levels(), price) == pb_queue_at(
                old(self).spec_levels(),
                price,
            ).push(order),
            forall|p: u64|
                #![trigger pb_queue_at(final(self).spec_levels(), p)]
                #![trigger pb_queue_at(old(self).spec_levels(), p)]
                p != price ==> pb_queue_at(final(self).spec_levels(), p) == pb_queue_at(
                    old(self).spec_levels(),
                    p,
                ),
    {
        let ghost lv0 = self.levels@;
        let found = self.find(price);
        match found {
            Some(i) => {
                let mut level = self.levels.remove(i);
                level.queue.push(order);
                self.levels.insert(i, level);
                proof {
                    let lv1 = self.levels@;
                    assert(lv1 =~= lv0.update(i as int, lv1[i as int]));
                    assert(lv1[i as int].price == price);
                    assert(lv1[i as int].queue@ == lv0[i as int].queue@.push(order));
                    assert(self.wf()) by {
                        assert forall|a: int, b: int| 0 <= a < b < lv1.len() implies (
                        #[trigger] lv1[a]).price != (#[trigger] lv1[b]).price by {
                            assert(lv1[a].price == lv0[a].price);
                            assert(lv1[b].price == lv0[b].price);
                        }
                    }
                    old(self).lemma_at(i as int);
                    self.lemma_at(i as int);
                    assert forall|p: u64|
                        #![trigger pb_queue_at(lv1, p)]
                        #![trigger pb_queue_at(lv0, p)]
                        p != price implies pb_queue_at(lv1, p) == pb_queue_at(lv0, p) by {
                        if pb_has_level(lv0, p) {
                            let w = choose|w: int|
                                0 <= w < lv0.len() && (#[trigger] lv0[w]).price == p;
                            old(self).lemma_at(w);
                            assert(lv1[w] == lv0[w]);
                            self.lemma_at(w);
                        } else {
                            if pb_has_level(lv1, p) {
                                let w = choose|w: int|
                                    0 <= w < lv1.len() && (#[trigger] lv1[w]).price == p;
                                assert(lv0[w].price == lv1[w].price);
                                assert(false);
                            }
                        }
                    }
                }
            },
            None => {
                let mut queue: Vec<Order> = Vec::with_capacity(10);
                queue.push(order);
                self.levels.push(OrderLevel { price, queue });
                proof {
                    let lv1 = self.levels@;
                    assert(lv1.drop_last() =~= lv0);
                    assert(lv1.last().price == price);
                    assert(lv1.last().queue@ =~= Seq::<Order>::empty().push(order));
                    assert(self.wf()) by {
                        assert forall|a: int, b: int| 0 <= a < b < lv1.len() implies (
                        #[trigger] lv1[a]).price != (#[trigger] lv1[b]).price by {
                            assert(lv1[a] == lv0[a]);
                            if b < lv1.len() - 1 {
                                assert(lv1[b] == lv0[b]);
                            } else {
                                assert(lv1[b] == lv1.last());
                                assert(lv0[a].price != price);
                            }
                        }
                    }
                    self.lemma_at(lv1.len() - 1);
                    assert(pb_queue_at(lv0, price) =~= Seq::<Order>::empty());
                    assert(pb_queue_at(lv1, price) =~= pb_queue_at(lv0, price).push(order));
                    assert forall|p: u64|
                        #![trigger pb_queue_at(lv1, p)]
                        #![trigger pb_queue_at(lv0, p)]
                        p != price implies pb_queue_at(lv1, p) == pb_queue_at(lv0, p) by {
                        if pb_has_level(lv0, p) {
                            let w = choose|w: int|
                                0 <= w < lv0.len() && (#[trigger] lv0[w]).price == p;
                            assert(lv1[w] == lv0[w]);
                            old(self).lemma_at(w);
                            self.lemma_at(w);
                        } else {
                            if pb_has_level(lv1, p) {
                                let w = choose|w: int|
                                    0 <= w < lv1.len() && (#[trigger] lv1[w]).price == p;
                                if w < lv1.len() - 1 {
                                    assert(lv0[w].price == p);
                                } else {
                                    assert(lv1[w] == lv1.last());
                                }
                                assert(false);
                            }
                        }
                    }
                }
            },
        }
    }

    /// Removes every record of this id from the queue at `price`, keeping
    /// the order of the rest; every other price keeps its queue.
    pub fn remove(&mut self, id: &u128, price: &u64)
        requires
            old(self).wf(),
        ensures
            final(self).wf(),
            final(self).top_price == old(self).top_price,
            pb_queue_at(final(self).spec_levels(), *price) == pb_remove_id(
                pb_queue_at(old(self).spec_levels(), *price),
                *id,
            ),
            forall|p: u64|
                #![trigger pb_queue_at(final(self).spec_levels(), p)]
                #![trigger pb_queue_at(old(self).spec_levels(), p)]
                p != *price ==> pb_queue_at(final(self).spec_levels(), p) == pb_queue_at(
                    old(self).spec_levels(),
                    p,
                ),
    {
        let ghost lv0 = self.levels@;
        let found = self.find(*price);
        match found {
            Some(i) => {
                let mut level = self.levels.remove(i);
                let ghost q0 = level.queue@;
                let mut kept: Vec<Order> = Vec::new();
                let mut k: usize = 0;
                while k < level.queue.len()
                    invariant
                        k <= q0.len(),
                        level.queue@ == q0,
                        kept@ == pb_remove_id(q0.take(k as int), *id),
                    decreases q0.len() - k,
                {
                    proof {
                        assert(q0.take(k + 1).drop_last() =~= q0.take(k as int));
                        assert(q0.take(k + 1).last() == q0[k as int]);
                    }
                    if level.queue[k].id != *id {
                        kept.push(level.queue[k]);
                    }
                    k += 1;
                }
                proof {
                    assert(q0.take(q0.len() as int) =~= q0);
                }
                level.queue = kept;
                self.levels.insert(i, level);
                proof {
                    let lv1 = self.levels@;
                    assert(lv1 =~= lv0.update(i as int, lv1[i as int]));
                    assert(lv1[i as int].price == *price);
                    assert(lv1[i as int].queue@ == pb_remove_id(q0, *id));
                    assert(self.wf()) by {
                        assert forall|a: int, b: int| 0 <= a < b < lv1.len() implies (
                        #[trigger] lv1[a]).price != (#[trigger] lv1[b]).price by {
                            assert(lv1[a].price == lv0[a].price);
                            assert(lv1[b].price == lv0[b].price);
                        }
                    }
                    old(self).lemma_at(i as int);
                    self.lemma_at(i as int);
                    assert forall|p: u64|
                        #![trigger pb_queue_at(lv1, p)]
                        #![trigger pb_queue_at(lv0, p)]
                        p != *price implies pb_queue_at(lv1, p) == pb_queue_at(lv0, p) by {
                        if pb_has_level(lv0, p) {
                            let w = choose|w: int|
                                0 <= w < lv0.len() && (#[trigger] lv0[w]).price == p;
                            old(self).lemma_at(w);
                            assert(lv1[w] == lv0[w]);
                            self.lemma_at(w);
                        } else {
                            if pb_has_level(lv1, p) {
                                let w = choose|w: int|
                                    0 <= w < lv1.len() && (#[trigger] lv1[w]).price == p;
                                assert(lv0[w].price == lv1[w].price);
                                assert(false);
                            }
                        }
                    }
                }
            },
            None => {
                proof {
                    assert(pb_queue_at(lv0, *price) =~= Seq::<Order>::empty());
                    assert(pb_remove_id(Seq::<Order>::empty(), *id) =~= Seq::<Order>::empty());
                }
            },
        }
    }

    /// The total quantity resting at this price; zero for a price no level
    /// carries.
    #[verifier::loop_isolation(false)]
    pub fn get_total_quantity_at_price(&self, price: &u64) -> (r: u64)
        requires
            self.wf(),
            pb_queue_qty(pb_queue_at(self.spec_levels(), *price)) <= u64::MAX,
        ensures
            r == pb_queue_qty(pb_queue_at(self.spec_levels(), *price)),
    {
        let mut i: usize = 0;
        let ghost lv = self.levels@;
        while i < self.levels.len()
            invariant
                i <= lv.len(),
                self.levels@ == lv,
                forall|k: int| 0 <= k < i ==> (#[trigger] lv[k]).price != *price,
            decreases lv.len() - i,
        {
            if self.levels[i].price == *price {
                proof {
                    self.lemma_at(i as int);
                }
                let ghost q = lv[i as int].queue@;
                let mut sum: u64 = 0;
                let mut k: usize = 0;
                while k < self.levels[i].queue.len()
                    invariant
                        k <= q.len(),
                        i < lv.len(),
                        self.levels@ == lv,
                        q == lv[i as int].queue@,
                        sum == pb_queue_qty(q.take(k as int)),
                        pb_queue_qty(q) <= u64::MAX,
                        pb_queue_qty(pb_queue_at(lv, *price)) <= u64::MAX,
                        pb_queue_at(lv, *price) == q,
                    decreases q.len() - k,
                {
                    proof {
                        assert(q.take(k + 1).drop_last() =~= q.take(k as int));
                        assert(q.take(k + 1).last() == q[k as int]);
                        Self::lemma_pb_take_bound(q, k as int + 1);
                        Self::lemma_pb_nonneg(q.take(k as int));
                    }
                    sum = sum + self.levels[i].queue[k].quantity;
                    k += 1;
                }
                proof {
                    assert(q.take(q.len() as int) =~= q);
                }
                return sum;
            }
            i += 1;
        }
        proof {
            assert(!pb_has_level(lv, *price)) by {
                if pb_has_level(lv, *price) {
                    let j = choose|j: int| 0 <= j < lv.len() && (#[trigger] lv[j]).price == *price;
                    assert(false);
                }
            }
        }
        0
    }

    /// Reduced-queue totals are never negative.
    proof fn lemma_pb_nonneg(q: Seq<Order>)
        ensures
            pb_queue_qty(q) >= 0,
        decreases q.len(),
    {
        if q.len() > 0 {
            Self::lemma_pb_nonneg(q.drop_last());
        }
    }

    /// A prefix's total never exceeds the whole queue's.
    proof fn lemma_pb_take_bound(q: Seq<Order>, n: int)
        requires
            0 <= n <= q.len(),
        ensures
            pb_queue_qty(q.take(n)) <= pb_queue_qty(q),
        decreases q.len() - n,
    {
        if n == q.len() {
            assert(q.take(n) =~= q);
        } else {
            assert(q.take(n + 1).drop_last() =~= q.take(n));
            assert(q.take(n + 1).last() == q[n]);
            Self::lemma_pb_take_bound(q, n + 1);
        }
    }
}

} // verus!
