//! The matching engine: two book sides over one order store, with cached
//! tops of book, price–time-priority matching, modify, cancel, aggregated
//! depth and request-for-quote evaluation.

use vstd::prelude::*;

use crate::book::{BookSide, PriceLevel, lemma_remove_all, lemma_remove_all_no_duplicates,
    prices_sorted, remove_all};
use crate::models::{
    Depth, ExecutionResult, FillMetaData, FillResult, Level, LimitOrder, MarketOrder, ModifyResult,
    Operation, RfqStatus, Side, fills_qty, lemma_fills_qty_nonneg, lemma_fills_qty_split,
    limit_order_wf, operation_wf,
};
use crate::store::Store;
use crate::utils::fresh_order_id;

verus! {

/// The total open quantity of the orders in a queue of slots.
pub open spec fn queue_qty(store: Store, q: Seq<usize>) -> int
    decreases q.len(),
{
    if q.len() == 0 {
        0
    } else {
        queue_qty(store, q.drop_last()) + store.slots()[q.last() as int].quantity
    }
}

/// The total open quantity resting on one side of the book.
pub open spec fn side_qty(store: Store, levels: Seq<PriceLevel>) -> int
    decreases levels.len(),
{
    if levels.len() == 0 {
        0
    } else {
        side_qty(store, levels.drop_last()) + queue_qty(store, levels.last().queue@)
    }
}

/// Whether a maker level at `level_price` crosses a taker on `taker_side`
/// whose limit is `bound`: a bid takes asks at or below its price, an ask
/// takes bids at or above it.
pub open spec fn price_crosses(taker_side: Side, level_price: u64, bound: u64) -> bool {
    match taker_side {
        Side::Bid => level_price <= bound,
        Side::Ask => level_price >= bound,
    }
}

/// The total opposing quantity a taker with limit `bound` may consume.
pub open spec fn crossable_qty(store: Store, levels: Seq<PriceLevel>, taker_side: Side, bound: u64) -> int
    decreases levels.len(),
{
    if levels.len() == 0 {
        0
    } else {
        crossable_qty(store, levels.drop_last(), taker_side, bound) + if price_crosses(
            taker_side,
            levels.last().price,
            bound,
        ) {
            queue_qty(store, levels.last().queue@)
        } else {
            0
        }
    }
}

/// The matches one level's queue yields to a taker, front first: each
/// maker fills up to its whole open quantity, and the maker the remainder
/// runs out on fills exactly that remainder.
pub open spec fn level_fills(
    store: Store,
    q: Seq<usize>,
    remaining: int,
    taker_id: u128,
    taker_side: Side,
    price: u64,
) -> Seq<FillMetaData>
    decreases q.len(),
{
    if q.len() == 0 || remaining <= 0 {
        Seq::empty()
    } else {
        let front = store.slots()[q[0] as int];
        if front.quantity <= remaining {
            seq![
                FillMetaData {
                    order_id: taker_id,
                    matched_order_id: front.id,
                    taker_side,
                    price,
                    quantity: front.quantity,
                },
            ] + level_fills(store, q.skip(1), remaining - front.quantity, taker_id, taker_side, price)
        } else {
            seq![
                FillMetaData {
                    order_id: taker_id,
                    matched_order_id: front.id,
                    taker_side,
                    price,
                    quantity: remaining as u64,
                },
            ]
        }
    }
}

/// The matches a taker draws from a whole side, read in walk order: one
/// level after the next while its price crosses the bound and quantity
/// remains, each level consumed front first.
pub open spec fn walk_fills(
    store: Store,
    levels: Seq<PriceLevel>,
    taker_id: u128,
    taker_side: Side,
    bound: u64,
    remaining: int,
) -> Seq<FillMetaData>
    decreases levels.len(),
{
    if levels.len() == 0 || remaining <= 0 {
        Seq::empty()
    } else if price_crosses(taker_side, levels[0].price, bound) {
        let avail = queue_qty(store, levels[0].queue@);
        let taken = if avail <= remaining {
            avail
        } else {
            remaining
        };
        level_fills(store, levels[0].queue@, remaining, taker_id, taker_side, levels[0].price)
            + walk_fills(store, levels.skip(1), taker_id, taker_side, bound, remaining - taken)
    } else {
        walk_fills(store, levels.skip(1), taker_id, taker_side, bound, remaining)
    }
}

/// A level's fills agree under stores that agree on its records.
pub proof fn lemma_level_fills_congruence(
    s1: Store,
    s2: Store,
    q: Seq<usize>,
    remaining: int,
    taker_id: u128,
    taker_side: Side,
    price: u64,
)
    requires
        forall|k: int|
            0 <= k < q.len() ==> s1.slots()[(#[trigger] q[k]) as int] == s2.slots()[q[k] as int],
    ensures
        level_fills(s1, q, remaining, taker_id, taker_side, price) == level_fills(
            s2,
            q,
            remaining,
            taker_id,
            taker_side,
            price,
        ),
    decreases q.len(),
{
    if q.len() > 0 && remaining > 0 {
        assert forall|k: int|
            0 <= k < q.skip(1).len() implies s1.slots()[(#[trigger] q.skip(1)[k]) as int]
            == s2.slots()[q.skip(1)[k] as int] by {
            assert(q.skip(1)[k] == q[k + 1]);
        }
        lemma_level_fills_congruence(
            s1,
            s2,
            q.skip(1),
            remaining - s1.slots()[q[0] as int].quantity as int,
            taker_id,
            taker_side,
            price,
        );
    }
}

/// What remains of one opposing level after a walk: an uncrossed level is
/// untouched; a crossed one loses what the taker still wanted on reaching
/// it, which is the taker's quantity less everything crossable before it.
pub open spec fn level_remainder(
    store: Store,
    levels: Seq<PriceLevel>,
    taker_side: Side,
    bound: u64,
    remaining: int,
    j: int,
) -> int {
    let before = queue_qty(store, levels[j].queue@);
    if !price_crosses(taker_side, levels[j].price, bound) {
        before
    } else {
        let prior = crossable_qty(store, levels.take(j), taker_side, bound);
        let rem_at = if remaining >= prior {
            remaining - prior
        } else {
            0
        };
        if before <= rem_at {
            0
        } else {
            before - rem_at
        }
    }
}

/// The crossable total of a reversed prefix is that of the matching
/// suffix: summing the same levels in the other order.
pub proof fn lemma_crossable_rev_take(
    store: Store,
    levels: Seq<PriceLevel>,
    taker_side: Side,
    bound: u64,
    i: int,
)
    requires
        0 <= i <= levels.len(),
    ensures
        crossable_qty(store, rev_levels(levels).take(levels.len() - i), taker_side, bound)
            == crossable_qty(store, levels.skip(i), taker_side, bound),
    decreases levels.len() - i,
{
    let rv = rev_levels(levels);
    let c = levels.len() - i;
    if i == levels.len() {
        assert(rv.take(0) =~= Seq::<PriceLevel>::empty());
        assert(levels.skip(i) =~= Seq::<PriceLevel>::empty());
    } else {
        lemma_crossable_rev_take(store, levels, taker_side, bound, i + 1);
        assert(rv.take(c).drop_last() =~= rv.take(c - 1));
        assert(rv.take(c).last() == rv[c - 1]);
        assert(rv[c - 1] == levels[i]);
        lemma_crossable_first(store, levels.skip(i), taker_side, bound);
        assert(levels.skip(i)[0] == levels[i]);
        assert(levels.skip(i).skip(1) =~= levels.skip(i + 1));
    }
}

/// A side none of whose levels cross yields no matches.
pub proof fn lemma_walk_fills_noncross(
    store: Store,
    levels: Seq<PriceLevel>,
    taker_id: u128,
    taker_side: Side,
    bound: u64,
    remaining: int,
)
    requires
        forall|j: int|
            0 <= j < levels.len() ==> !price_crosses(taker_side, (#[trigger] levels[j]).price, bound),
    ensures
        walk_fills(store, levels, taker_id, taker_side, bound, remaining) == Seq::<
            FillMetaData,
        >::empty(),
    decreases levels.len(),
{
    if levels.len() > 0 && remaining > 0 {
        assert forall|j: int|
            0 <= j < levels.skip(1).len() implies !price_crosses(
            taker_side,
            (#[trigger] levels.skip(1)[j]).price,
            bound,
        ) by {
            assert(levels.skip(1)[j] == levels[j + 1]);
        }
        lemma_walk_fills_noncross(store, levels.skip(1), taker_id, taker_side, bound, remaining);
        assert(levels[0].price == levels[0].price);
    }
}

/// A slot standing in a queue at `price` on side `side` is live, carries
/// exactly that price and side, and has open quantity.
pub open spec fn slot_ok(store: Store, slot: usize, price: u64, side: Side) -> bool {
    &&& (slot as int) < store.slots().len()
    &&& store.slots()[slot as int].quantity > 0
    &&& store.slots()[slot as int].price == price
    &&& store.slots()[slot as int].side == side
    &&& store.has_id(store.slots()[slot as int].id)
    &&& store.slot_of(store.slots()[slot as int].id) == slot
}

/// Every slot of the queue is in order for its level, and none repeats.
pub open spec fn queue_ok(store: Store, q: Seq<usize>, price: u64, side: Side) -> bool {
    &&& forall|k: int| 0 <= k < q.len() ==> slot_ok(store, #[trigger] q[k], price, side)
    &&& q.no_duplicates()
}

/// One side of the book is in order: levels strictly ascending by price,
/// prices positive, every queue well formed against the store.
pub open spec fn side_ok(store: Store, levels: Seq<PriceLevel>, side: Side) -> bool {
    &&& prices_sorted(levels)
    &&& forall|i: int|
        0 <= i < levels.len() ==> (#[trigger] levels[i]).price > 0 && queue_ok(
            store,
            levels[i].queue@,
            levels[i].price,
            side,
        )
}

/// Some level at `price` holds `slot` in its queue.
pub open spec fn book_contains_slot(levels: Seq<PriceLevel>, price: u64, slot: usize) -> bool {
    exists|i: int|
        0 <= i < levels.len() && (#[trigger] levels[i]).price == price && levels[i].queue@.contains(
            slot,
        )
}

/// Every queue on the side is empty.
pub open spec fn side_all_empty(levels: Seq<PriceLevel>) -> bool {
    forall|i: int| 0 <= i < levels.len() ==> (#[trigger] levels[i]).queue@.len() == 0
}

/// `p` is the best price of the side: some non-empty level carries it, and
/// every non-empty level is at or below it (bids) or at or above it (asks).
pub open spec fn top_price_is(levels: Seq<PriceLevel>, p: u64, side: Side) -> bool {
    &&& exists|i: int|
        0 <= i < levels.len() && (#[trigger] levels[i]).price == p && levels[i].queue@.len() > 0
    &&& forall|i: int|
        0 <= i < levels.len() && (#[trigger] levels[i]).queue@.len() > 0 ==> match side {
            Side::Bid => levels[i].price <= p,
            Side::Ask => levels[i].price >= p,
        }
}

/// Whether some level of the side carries this price.
pub open spec fn has_level(levels: Seq<PriceLevel>, price: u64) -> bool {
    exists|i: int| 0 <= i < levels.len() && (#[trigger] levels[i]).price == price
}

/// The index of the level at this price; meaningful only under
/// `has_level` and sortedness, which make it unique.
pub open spec fn level_index_of(levels: Seq<PriceLevel>, price: u64) -> int {
    choose|i: int| 0 <= i < levels.len() && (#[trigger] levels[i]).price == price
}

/// The queue resting at this price; empty when no level carries it.
pub open spec fn queue_at(levels: Seq<PriceLevel>, price: u64) -> Seq<usize> {
    if has_level(levels, price) {
        levels[level_index_of(levels, price)].queue@
    } else {
        Seq::empty()
    }
}

/// On a sorted side, each level is the one `queue_at` reads at its price.
pub proof fn lemma_queue_at(levels: Seq<PriceLevel>, i: int)
    requires
        prices_sorted(levels),
        0 <= i < levels.len(),
    ensures
        has_level(levels, levels[i].price),
        level_index_of(levels, levels[i].price) == i,
        queue_at(levels, levels[i].price) == levels[i].queue@,
{
    assert(has_level(levels, levels[i].price)) by {
        assert(0 <= i < levels.len() && levels[i].price == levels[i].price);
    }
    let j = level_index_of(levels, levels[i].price);
    assert(0 <= j < levels.len() && levels[j].price == levels[i].price);
    if j < i {
        assert(levels[j].price < levels[i].price);
    } else if j > i {
        assert(levels[i].price < levels[j].price);
    }
}

/// Sums of quantities over queues are never negative.
pub proof fn lemma_queue_qty_nonneg(store: Store, q: Seq<usize>)
    ensures
        queue_qty(store, q) >= 0,
    decreases q.len(),
{
    if q.len() > 0 {
        lemma_queue_qty_nonneg(store, q.drop_last());
    }
}

/// Sums of quantities over sides are never negative.
pub proof fn lemma_side_qty_nonneg(store: Store, levels: Seq<PriceLevel>)
    ensures
        side_qty(store, levels) >= 0,
    decreases levels.len(),
{
    if levels.len() > 0 {
        lemma_side_qty_nonneg(store, levels.drop_last());
        lemma_queue_qty_nonneg(store, levels.last().queue@);
    }
}

/// A queue's total is the same under two stores that agree on its slots.
pub proof fn lemma_queue_qty_congruence(s1: Store, s2: Store, q: Seq<usize>)
    requires
        forall|k: int|
            0 <= k < q.len() ==> s1.slots()[(#[trigger] q[k]) as int] == s2.slots()[q[k] as int],
    ensures
        queue_qty(s1, q) == queue_qty(s2, q),
    decreases q.len(),
{
    if q.len() > 0 {
        lemma_queue_qty_congruence(s1, s2, q.drop_last());
    }
}

/// A queue's total decomposes at the front.
pub proof fn lemma_queue_qty_first(store: Store, q: Seq<usize>)
    requires
        q.len() > 0,
    ensures
        queue_qty(store, q) == store.slots()[q[0] as int].quantity + queue_qty(store, q.skip(1)),
    decreases q.len(),
{
    if q.len() == 1 {
        assert(q.skip(1) =~= Seq::<usize>::empty());
        assert(q.drop_last() =~= Seq::<usize>::empty());
    } else {
        let t = q.drop_last();
        lemma_queue_qty_first(store, t);
        assert(q.skip(1).drop_last() =~= t.skip(1));
        assert(q.skip(1).last() == q.last());
        assert(t[0] == q[0]);
    }
}

/// A side's total is the same under two stores that agree on all its slots.
pub proof fn lemma_side_qty_congruence(s1: Store, s2: Store, levels: Seq<PriceLevel>)
    requires
        forall|i: int, k: int|
            0 <= i < levels.len() && 0 <= k < (#[trigger] levels[i]).queue@.len() ==> s1.slots()[(
            #[trigger] levels[i].queue@[k]) as int] == s2.slots()[levels[i].queue@[k] as int],
    ensures
        side_qty(s1, levels) == side_qty(s2, levels),
    decreases levels.len(),
{
    if levels.len() > 0 {
        let t = levels.drop_last();
        assert forall|i: int, k: int|
            0 <= i < t.len() && 0 <= k < (#[trigger] t[i]).queue@.len() implies s1.slots()[(
        #[trigger] t[i].queue@[k]) as int] == s2.slots()[t[i].queue@[k] as int] by {
            assert(levels[i] == t[i]);
        }
        lemma_side_qty_congruence(s1, s2, t);
        assert(levels[levels.len() - 1] == levels.last());
        lemma_queue_qty_congruence(s1, s2, levels.last().queue@);
    }
}

/// Crossable totals are never negative.
pub proof fn lemma_crossable_nonneg(store: Store, levels: Seq<PriceLevel>, side: Side, bound: u64)
    ensures
        crossable_qty(store, levels, side, bound) >= 0,
    decreases levels.len(),
{
    if levels.len() > 0 {
        lemma_crossable_nonneg(store, levels.drop_last(), side, bound);
        lemma_queue_qty_nonneg(store, levels.last().queue@);
    }
}

/// The crossable total decomposes at the first level.
pub proof fn lemma_crossable_first(store: Store, levels: Seq<PriceLevel>, side: Side, bound: u64)
    requires
        levels.len() > 0,
    ensures
        crossable_qty(store, levels, side, bound) == crossable_qty(
            store,
            levels.skip(1),
            side,
            bound,
        ) + if price_crosses(side, levels[0].price, bound) {
            queue_qty(store, levels[0].queue@)
        } else {
            0
        },
    decreases levels.len(),
{
    if levels.len() == 1 {
        assert(levels.skip(1) =~= Seq::<PriceLevel>::empty());
        assert(levels.drop_last() =~= Seq::<PriceLevel>::empty());
    } else {
        let t = levels.drop_last();
        lemma_crossable_first(store, t, side, bound);
        assert(levels.skip(1).drop_last() =~= t.skip(1));
        assert(levels.skip(1).last() == levels.last());
        assert(t[0] == levels[0]);
    }
}

/// Growing the prefix by one level adds that level's crossable share.
pub proof fn lemma_crossable_take_step(
    store: Store,
    levels: Seq<PriceLevel>,
    side: Side,
    bound: u64,
    n: int,
)
    requires
        0 <= n < levels.len(),
    ensures
        crossable_qty(store, levels.take(n + 1), side, bound) == crossable_qty(
            store,
            levels.take(n),
            side,
            bound,
        ) + if price_crosses(side, levels[n].price, bound) {
            queue_qty(store, levels[n].queue@)
        } else {
            0
        },
{
    assert(levels.take(n + 1).drop_last() =~= levels.take(n));
    assert(levels.take(n + 1).last() == levels[n]);
}

/// Prefix crossable totals grow with the prefix.
pub proof fn lemma_crossable_take_monotone(
    store: Store,
    levels: Seq<PriceLevel>,
    side: Side,
    bound: u64,
    n: int,
    m: int,
)
    requires
        0 <= n <= m <= levels.len(),
    ensures
        crossable_qty(store, levels.take(n), side, bound) <= crossable_qty(
            store,
            levels.take(m),
            side,
            bound,
        ),
    decreases m - n,
{
    if n < m {
        lemma_crossable_take_step(store, levels, side, bound, m - 1);
        lemma_crossable_take_monotone(store, levels, side, bound, n, m - 1);
        lemma_queue_qty_nonneg(store, levels[m - 1].queue@);
    }
}

/// Levels beyond a prefix that cannot cross add nothing to the total.
pub proof fn lemma_crossable_suffix_flat(
    store: Store,
    levels: Seq<PriceLevel>,
    side: Side,
    bound: u64,
    n: int,
)
    requires
        0 <= n <= levels.len(),
        forall|j: int|
            n <= j < levels.len() ==> !price_crosses(side, (#[trigger] levels[j]).price, bound),
    ensures
        crossable_qty(store, levels, side, bound) == crossable_qty(
            store,
            levels.take(n),
            side,
            bound,
        ),
    decreases levels.len() - n,
{
    if n == levels.len() {
        assert(levels.take(n) =~= levels);
    } else {
        lemma_crossable_take_step(store, levels, side, bound, n);
        lemma_crossable_suffix_flat(store, levels, side, bound, n + 1);
    }
}

/// Levels before a suffix that cannot cross add nothing to the total.
pub proof fn lemma_crossable_prefix_flat(
    store: Store,
    levels: Seq<PriceLevel>,
    side: Side,
    bound: u64,
    n: int,
)
    requires
        0 <= n <= levels.len(),
        forall|j: int| 0 <= j < n ==> !price_crosses(side, (#[trigger] levels[j]).price, bound),
    ensures
        crossable_qty(store, levels, side, bound) == crossable_qty(
            store,
            levels.skip(n),
            side,
            bound,
        ),
    decreases n,
{
    if n > 0 {
        lemma_crossable_first(store, levels, side, bound);
        assert forall|j: int| 0 <= j < n - 1 implies !price_crosses(
            side,
            (#[trigger] levels.skip(1)[j]).price,
            bound,
        ) by {
            assert(levels.skip(1)[j] == levels[j + 1]);
        }
        lemma_crossable_prefix_flat(store, levels.skip(1), side, bound, n - 1);
        assert(levels.skip(1).skip(n - 1) =~= levels.skip(n));
    } else {
        assert(levels.skip(0) =~= levels);
    }
}

/// Shrinking the suffix by one level adds that level's crossable share.
pub proof fn lemma_crossable_skip_step(
    store: Store,
    levels: Seq<PriceLevel>,
    side: Side,
    bound: u64,
    n: int,
)
    requires
        0 <= n < levels.len(),
    ensures
        crossable_qty(store, levels.skip(n), side, bound) == crossable_qty(
            store,
            levels.skip(n + 1),
            side,
            bound,
        ) + if price_crosses(side, levels[n].price, bound) {
            queue_qty(store, levels[n].queue@)
        } else {
            0
        },
{
    lemma_crossable_first(store, levels.skip(n), side, bound);
    assert(levels.skip(n).skip(1) =~= levels.skip(n + 1));
    assert(levels.skip(n)[0] == levels[n]);
}

/// Suffix crossable totals shrink as the suffix shrinks.
pub proof fn lemma_crossable_skip_monotone(
    store: Store,
    levels: Seq<PriceLevel>,
    side: Side,
    bound: u64,
    n: int,
    m: int,
)
    requires
        0 <= n <= m <= levels.len(),
    ensures
        crossable_qty(store, levels.skip(m), side, bound) <= crossable_qty(
            store,
            levels.skip(n),
            side,
            bound,
        ),
    decreases m - n,
{
    if n < m {
        lemma_crossable_skip_step(store, levels, side, bound, n);
        lemma_crossable_skip_monotone(store, levels, side, bound, n + 1, m);
        lemma_queue_qty_nonneg(store, levels[n].queue@);
    }
}

/// Crossable totals agree under stores that agree on the side's slots.
pub proof fn lemma_crossable_congruence(
    s1: Store,
    s2: Store,
    levels: Seq<PriceLevel>,
    side: Side,
    bound: u64,
)
    requires
        forall|i: int, k: int|
            0 <= i < levels.len() && 0 <= k < (#[trigger] levels[i]).queue@.len() ==> s1.slots()[(
            #[trigger] levels[i].queue@[k]) as int] == s2.slots()[levels[i].queue@[k] as int],
    ensures
        crossable_qty(s1, levels, side, bound) == crossable_qty(s2, levels, side, bound),
    decreases levels.len(),
{
    if levels.len() > 0 {
        let t = levels.drop_last();
        assert forall|i: int, k: int|
            0 <= i < t.len() && 0 <= k < (#[trigger] t[i]).queue@.len() implies s1.slots()[(
        #[trigger] t[i].queue@[k]) as int] == s2.slots()[t[i].queue@[k] as int] by {
            assert(levels[i] == t[i]);
        }
        lemma_crossable_congruence(s1, s2, t, side, bound);
        assert(levels[levels.len() - 1] == levels.last());
        lemma_queue_qty_congruence(s1, s2, levels.last().queue@);
    }
}

/// Replacing one level moves a side's total by the difference between the
/// old queue read under the old store and the new queue under the new
/// store, as long as the other levels' records are untouched.
pub proof fn lemma_side_qty_update_two(
    s_old: Store,
    s_new: Store,
    levels: Seq<PriceLevel>,
    i: int,
    l2: PriceLevel,
)
    requires
        0 <= i < levels.len(),
        forall|j: int, k: int|
            0 <= j < levels.len() && j != i && 0 <= k < (#[trigger] levels[j]).queue@.len()
                ==> s_new.slots()[(#[trigger] levels[j].queue@[k]) as int] == s_old.slots()[
                levels[j].queue@[k] as int
            ],
    ensures
        side_qty(s_new, levels.update(i, l2)) == side_qty(s_old, levels) - queue_qty(
            s_old,
            levels[i].queue@,
        ) + queue_qty(s_new, l2.queue@),
    decreases levels.len(),
{
    let u = levels.update(i, l2);
    if i == levels.len() - 1 {
        assert(u.drop_last() =~= levels.drop_last());
        assert(u.last() == l2);
        assert forall|j: int, k: int|
            0 <= j < levels.drop_last().len() && 0 <= k < (
            #[trigger] levels.drop_last()[j]).queue@.len() implies s_new.slots()[(
        #[trigger] levels.drop_last()[j].queue@[k]) as int] == s_old.slots()[
        levels.drop_last()[j].queue@[k] as int] by {
            assert(levels[j] == levels.drop_last()[j]);
        }
        lemma_side_qty_congruence(s_new, s_old, levels.drop_last());
        assert(levels[i] == levels.last());
    } else {
        assert(u.drop_last() =~= levels.drop_last().update(i, l2));
        assert(u.last() == levels.last());
        assert forall|j: int, k: int|
            0 <= j < levels.drop_last().len() && j != i && 0 <= k < (
            #[trigger] levels.drop_last()[j]).queue@.len() implies s_new.slots()[(
        #[trigger] levels.drop_last()[j].queue@[k]) as int] == s_old.slots()[
        levels.drop_last()[j].queue@[k] as int] by {
            assert(levels[j] == levels.drop_last()[j]);
        }
        lemma_side_qty_update_two(s_old, s_new, levels.drop_last(), i, l2);
        assert(levels.drop_last()[i] == levels[i]);
        assert(levels[levels.len() - 1] == levels.last());
        lemma_queue_qty_congruence(s_new, s_old, levels.last().queue@);
    }
}

/// Every slot standing in a well-formed side is live in the store.
pub proof fn lemma_queue_slots_live(st: Store, levels: Seq<PriceLevel>, s: Side)
    requires
        side_ok(st, levels, s),
    ensures
        forall|i: int, k: int|
            0 <= i < levels.len() && 0 <= k < (#[trigger] levels[i]).queue@.len() ==> st.slot_live(
                (#[trigger] levels[i].queue@[k]) as int,
            ),
{
    assert forall|i: int, k: int|
        0 <= i < levels.len() && 0 <= k < (#[trigger] levels[i]).queue@.len() implies st.slot_live(
        (#[trigger] levels[i].queue@[k]) as int,
    ) by {
        assert(queue_ok(st, levels[i].queue@, levels[i].price, s));
        assert(slot_ok(st, levels[i].queue@[k], levels[i].price, s));
    }
}

/// A well-formed side stays well formed under a store change that touches
/// none of its slots and keeps every live id in place.
pub proof fn lemma_side_ok_untouched(st0: Store, st1: Store, levels: Seq<PriceLevel>, s: Side)
    requires
        side_ok(st0, levels, s),
        forall|i: int, k: int|
            0 <= i < levels.len() && 0 <= k < (#[trigger] levels[i]).queue@.len() ==> st1.slots()[(
            #[trigger] levels[i].queue@[k]) as int] == st0.slots()[levels[i].queue@[k] as int]
                && (levels[i].queue@[k] as int) < st1.slots().len(),
        forall|id2: u128|
            #[trigger] st0.has_id(id2) ==> st1.has_id(id2) && st1.slot_of(id2) == st0.slot_of(id2),
    ensures
        side_ok(st1, levels, s),
{
    assert forall|i: int| 0 <= i < levels.len() implies (#[trigger] levels[i]).price > 0
        && queue_ok(st1, levels[i].queue@, levels[i].price, s) by {
        assert(queue_ok(st0, levels[i].queue@, levels[i].price, s));
        assert forall|k: int| 0 <= k < levels[i].queue@.len() implies slot_ok(
            st1,
            #[trigger] levels[i].queue@[k],
            levels[i].price,
            s,
        ) by {
            assert(slot_ok(st0, levels[i].queue@[k], levels[i].price, s));
            assert(st0.has_id(st0.slots()[levels[i].queue@[k] as int].id));
        }
    }
}

/// Inserting a level adds its queue total to the side total.
pub proof fn lemma_side_qty_insert(store: Store, levels: Seq<PriceLevel>, i: int, l2: PriceLevel)
    requires
        0 <= i <= levels.len(),
    ensures
        side_qty(store, levels.insert(i, l2)) == side_qty(store, levels) + queue_qty(
            store,
            l2.queue@,
        ),
    decreases levels.len(),
{
    let u = levels.insert(i, l2);
    if i == levels.len() {
        assert(u.drop_last() =~= levels);
        assert(u.last() == l2);
    } else {
        assert(u.drop_last() =~= levels.drop_last().insert(i, l2));
        assert(u.last() == levels.last());
        lemma_side_qty_insert(store, levels.drop_last(), i, l2);
    }
}


/// The shape a push leaves a side in: the queue at `price` grew by `slot`
/// at its back, either on the existing level or on a freshly inserted
/// one; every other level stands as it was.
pub open spec fn pushed_level_shape(
    lv0: Seq<PriceLevel>,
    lv1: Seq<PriceLevel>,
    idx: int,
    price: u64,
    slot: usize,
) -> bool {
    &&& prices_sorted(lv0)
    &&& prices_sorted(lv1)
    &&& 0 <= idx < lv1.len()
    &&& lv1[idx].price == price
    &&& if has_level(lv0, price) {
        &&& lv1.len() == lv0.len()
        &&& idx < lv0.len()
        &&& lv0[idx].price == price
        &&& lv1[idx].queue@ == lv0[idx].queue@.push(slot)
        &&& forall|j: int| 0 <= j < lv0.len() && j != idx ==> lv1[j] == lv0[j]
    } else {
        &&& lv1.len() == lv0.len() + 1
        &&& lv1[idx].queue@ == seq![slot]
        &&& forall|j: int| 0 <= j < idx ==> lv1[j] == lv0[j]
        &&& forall|j: int| idx < j < lv1.len() ==> lv1[j] == lv0[j - 1]
    }
}

/// After a push the side is still well formed, provided the new slot is
/// in order for its level and stood in no queue before.
pub proof fn lemma_push_side_ok(
    st: Store,
    lv0: Seq<PriceLevel>,
    lv1: Seq<PriceLevel>,
    idx: int,
    price: u64,
    slot: usize,
    side: Side,
)
    requires
        pushed_level_shape(lv0, lv1, idx, price, slot),
        side_ok(st, lv0, side),
        slot_ok(st, slot, price, side),
        price > 0,
        forall|i: int, k: int|
            0 <= i < lv0.len() && 0 <= k < (#[trigger] lv0[i]).queue@.len() ==> (
            #[trigger] lv0[i].queue@[k]) != slot,
    ensures
        side_ok(st, lv1, side),
{
    assert forall|i: int| 0 <= i < lv1.len() implies (#[trigger] lv1[i]).price > 0 && queue_ok(
        st,
        lv1[i].queue@,
        lv1[i].price,
        side,
    ) by {
        if i == idx {
            if has_level(lv0, price) {
                assert(queue_ok(st, lv0[idx].queue@, price, side));
                assert forall|k: int| 0 <= k < lv1[i].queue@.len() implies slot_ok(
                    st,
                    #[trigger] lv1[i].queue@[k],
                    lv1[i].price,
                    side,
                ) by {
                    if k < lv1[i].queue@.len() - 1 {
                        assert(lv1[i].queue@[k] == lv0[idx].queue@[k]);
                        assert(slot_ok(st, lv0[idx].queue@[k], price, side));
                    } else {
                        assert(lv1[i].queue@[k] == slot);
                    }
                }
                assert(lv1[i].queue@.no_duplicates()) by {
                    assert forall|a: int, b: int| 0 <= a < b < lv1[i].queue@.len() implies lv1[
                        i
                    ].queue@[a] != lv1[i].queue@[b] by {
                        assert(lv0[idx].queue@[a] == lv1[i].queue@[a]);
                        if b < lv1[i].queue@.len() - 1 {
                            assert(lv0[idx].queue@[b] == lv1[i].queue@[b]);
                        } else {
                            assert(lv1[i].queue@[b] == slot);
                        }
                    }
                }
            } else {
                assert forall|k: int| 0 <= k < lv1[i].queue@.len() implies slot_ok(
                    st,
                    #[trigger] lv1[i].queue@[k],
                    lv1[i].price,
                    side,
                ) by {
                    assert(lv1[i].queue@ =~= Seq::<usize>::empty().push(slot));
                    assert(lv1[i].queue@[k] == slot);
                }
            }
        } else {
            let j0 = if !has_level(lv0, price) && i > idx {
                i - 1
            } else {
                i
            };
            assert(lv1[i] == lv0[j0]);
            assert(queue_ok(st, lv0[j0].queue@, lv0[j0].price, side));
            assert(lv0[j0].price > 0);
        }
    }
}

/// After a push, the queue at the pushed price grew by the slot, every
/// other price kept its queue, and non-empty levels grew only at that
/// price.
pub proof fn lemma_push_queue_at(
    lv0: Seq<PriceLevel>,
    lv1: Seq<PriceLevel>,
    idx: int,
    price: u64,
    slot: usize,
)
    requires
        pushed_level_shape(lv0, lv1, idx, price, slot),
    ensures
        has_level(lv1, price),
        queue_at(lv1, price) == queue_at(lv0, price).push(slot),
        forall|p: u64|
            #![trigger queue_at(lv1, p)]
            #![trigger has_level(lv1, p)]
            #![trigger queue_at(lv0, p)]
            #![trigger has_level(lv0, p)]
            p != price ==> queue_at(lv1, p) == queue_at(lv0, p) && (has_level(lv1, p) <==> has_level(
                lv0,
                p,
            )),
        forall|i: int|
            0 <= i < lv1.len() && (#[trigger] lv1[i]).queue@.len() > 0 ==> lv1[i].price == price
                || exists|j: int|
                0 <= j < lv0.len() && (#[trigger] lv0[j]).price == lv1[i].price && lv0[
                    j
                ].queue@.len() > 0,
{
    lemma_queue_at(lv1, idx);
    if has_level(lv0, price) {
        lemma_queue_at(lv0, idx);
    } else {
        assert(queue_at(lv1, price) =~= Seq::<usize>::empty().push(slot));
        assert(queue_at(lv1, price) =~= queue_at(lv0, price).push(slot));
    }
    assert forall|p: u64|
        #![trigger queue_at(lv1, p)]
        #![trigger has_level(lv1, p)]
        #![trigger queue_at(lv0, p)]
        #![trigger has_level(lv0, p)]
        p != price implies queue_at(lv1, p) == queue_at(lv0, p) && (has_level(lv1, p)
        <==> has_level(lv0, p)) by {
        if has_level(lv0, p) {
            let j = choose|j: int| 0 <= j < lv0.len() && (#[trigger] lv0[j]).price == p;
            lemma_queue_at(lv0, j);
            if has_level(lv0, price) {
                assert(lv1[j] == lv0[j]);
                lemma_queue_at(lv1, j);
            } else {
                let j1 = if j < idx {
                    j
                } else {
                    j + 1
                };
                assert(lv1[j1] == lv0[j]);
                lemma_queue_at(lv1, j1);
            }
        } else {
            if has_level(lv1, p) {
                let j = choose|j: int| 0 <= j < lv1.len() && (#[trigger] lv1[j]).price == p;
                assert(j != idx);
                if has_level(lv0, price) {
                    assert(lv1[j] == lv0[j]);
                } else {
                    let j0 = if j < idx {
                        j
                    } else {
                        j - 1
                    };
                    assert(lv0[j0] == lv1[j]);
                }
                assert(false);
            }
        }
    }
    assert forall|i: int|
        0 <= i < lv1.len() && (#[trigger] lv1[i]).queue@.len() > 0 && lv1[i].price
            != price implies exists|j: int|
        0 <= j < lv0.len() && (#[trigger] lv0[j]).price == lv1[i].price && lv0[j].queue@.len()
            > 0 by {
        if has_level(lv0, price) {
            assert(lv0[i] == lv1[i]);
        } else {
            let j0 = if i < idx {
                i
            } else {
                i - 1
            };
            assert(lv0[j0] == lv1[i]);
        }
    }
}

/// A push adds exactly the pushed slot's open quantity to the side total,
/// when the store change touched no other slot of the side.
pub proof fn lemma_push_qty(
    st0: Store,
    st1: Store,
    lv0: Seq<PriceLevel>,
    lv1: Seq<PriceLevel>,
    idx: int,
    price: u64,
    slot: usize,
)
    requires
        pushed_level_shape(lv0, lv1, idx, price, slot),
        (slot as int) < st1.slots().len(),
        forall|i: int, k: int|
            0 <= i < lv0.len() && 0 <= k < (#[trigger] lv0[i]).queue@.len() ==> st1.slots()[(
            #[trigger] lv0[i].queue@[k]) as int] == st0.slots()[lv0[i].queue@[k] as int],
    ensures
        side_qty(st1, lv1) == side_qty(st0, lv0) + st1.slots()[slot as int].quantity,
{
    if has_level(lv0, price) {
        assert(lv1 =~= lv0.update(idx, lv1[idx]));
        lemma_side_qty_update_two(st0, st1, lv0, idx, lv1[idx]);
        assert(queue_qty(st1, lv0[idx].queue@.push(slot)) == queue_qty(st1, lv0[idx].queue@)
            + st1.slots()[slot as int].quantity) by {
            assert(lv0[idx].queue@.push(slot).drop_last() =~= lv0[idx].queue@);
            assert(lv0[idx].queue@.push(slot).last() == slot);
        }
        lemma_queue_qty_congruence(st1, st0, lv0[idx].queue@);
    } else {
        assert(lv1 =~= lv0.insert(idx, lv1[idx]));
        lemma_side_qty_insert(st1, lv0, idx, lv1[idx]);
        lemma_side_qty_congruence(st1, st0, lv0);
        assert(queue_qty(st1, lv1[idx].queue@) == st1.slots()[slot as int].quantity) by {
            assert(lv1[idx].queue@ =~= Seq::<usize>::empty().push(slot));
            assert(lv1[idx].queue@.drop_last() =~= Seq::<usize>::empty());
            assert(queue_qty(st1, Seq::<usize>::empty()) == 0);
            assert(lv1[idx].queue@.last() == slot);
        }
    }
}

/// Every live order still stands in its book after a fresh one is pushed.
pub proof fn lemma_push_complete(
    st0: Store,
    st1: Store,
    lv0: Seq<PriceLevel>,
    lv1: Seq<PriceLevel>,
    opp: Seq<PriceLevel>,
    side: Side,
    order: LimitOrder,
    slot: usize,
    idx: int,
)
    requires
        pushed_level_shape(lv0, lv1, idx, order.price, slot),
        order.side == side,
        forall|id2: u128|
            #[trigger] st0.has_id(id2) ==> book_contains_slot(
                if st0.order_of(id2).side == side {
                    lv0
                } else {
                    opp
                },
                st0.order_of(id2).price,
                st0.slot_of(id2),
            ),
        forall|id2: u128|
            #[trigger] st0.has_id(id2) ==> st1.has_id(id2) && st1.slot_of(id2) == st0.slot_of(id2)
                && st1.order_of(id2) == st0.order_of(id2),
        forall|id2: u128| #[trigger] st1.has_id(id2) ==> id2 == order.id || st0.has_id(id2),
        st1.has_id(order.id),
        st1.slot_of(order.id) == slot,
        st1.order_of(order.id) == order,
    ensures
        forall|id2: u128|
            #[trigger] st1.has_id(id2) ==> book_contains_slot(
                if st1.order_of(id2).side == side {
                    lv1
                } else {
                    opp
                },
                st1.order_of(id2).price,
                st1.slot_of(id2),
            ),
{
    assert forall|id2: u128| #[trigger] st1.has_id(id2) implies book_contains_slot(
        if st1.order_of(id2).side == side {
            lv1
        } else {
            opp
        },
        st1.order_of(id2).price,
        st1.slot_of(id2),
    ) by {
        if id2 == order.id {
            assert(lv1[idx].queue@.contains(slot)) by {
                if has_level(lv0, order.price) {
                    assert(lv1[idx].queue@[lv1[idx].queue@.len() - 1] == slot);
                } else {
                    assert(lv1[idx].queue@ =~= seq![slot]);
                    assert(lv1[idx].queue@[0] == slot);
                }
            }
            assert(book_contains_slot(lv1, order.price, slot));
        } else {
            assert(st0.has_id(id2));
            let o2 = st0.order_of(id2);
            if o2.side == side {
                assert(book_contains_slot(lv0, o2.price, st0.slot_of(id2)));
                let j = choose|j: int|
                    0 <= j < lv0.len() && (#[trigger] lv0[j]).price == o2.price && lv0[
                        j
                    ].queue@.contains(st0.slot_of(id2));
                if has_level(lv0, order.price) {
                    if j == idx {
                        let k = choose|k: int|
                            0 <= k < lv0[idx].queue@.len() && lv0[idx].queue@[k] == st0.slot_of(
                                id2,
                            );
                        assert(lv1[idx].queue@[k] == st0.slot_of(id2));
                        assert(lv1[idx].queue@.contains(st0.slot_of(id2)));
                    } else {
                        assert(lv1[j] == lv0[j]);
                    }
                    assert(book_contains_slot(lv1, o2.price, st0.slot_of(id2)));
                } else {
                    let j1 = if j < idx {
                        j
                    } else {
                        j + 1
                    };
                    assert(lv1[j1] == lv0[j]);
                    assert(book_contains_slot(lv1, o2.price, st0.slot_of(id2)));
                }
            }
        }
    }
}

/// What consuming one queue leaves behind in the store: a prefix of
/// `popped` makers deleted, the rest in place with at most the front's
/// quantity reduced, and nothing outside the queue touched.
pub open spec fn queue_consumed(
    st_b: Store,
    st_a: Store,
    q_b: Seq<usize>,
    q_a: Seq<usize>,
    popped: int,
    price: u64,
    side: Side,
) -> bool {
    &&& st_a.wf()
    &&& queue_ok(st_a, q_a, price, side)
    &&& 0 <= popped <= q_b.len()
    &&& q_a == q_b.skip(popped)
    &&& st_a.slots().len() == st_b.slots().len()
    &&& forall|s: int|
        #![trigger st_a.slots()[s]]
        0 <= s < st_b.slots().len() && !q_b.contains(s as usize) ==> st_a.slots()[s]
            == st_b.slots()[s]
    &&& forall|id2: u128|
        #[trigger] st_a.has_id(id2) ==> st_b.has_id(id2) && st_a.slot_of(id2) == st_b.slot_of(id2)
    &&& forall|id2: u128|
        #[trigger] st_b.has_id(id2) && !q_b.take(popped).contains(st_b.slot_of(id2))
            ==> st_a.has_id(id2)
    &&& forall|j: int|
        0 <= j < popped ==> !st_a.has_id(st_b.slots()[(#[trigger] q_b[j]) as int].id)
    &&& forall|m: int|
        0 <= m < q_a.len() ==> {
            let s = (#[trigger] q_a[m]) as int;
            &&& st_a.slots()[s].id == st_b.slots()[s].id
            &&& st_a.slots()[s].price == st_b.slots()[s].price
            &&& st_a.slots()[s].side == st_b.slots()[s].side
        }
}

/// After one level's queue is consumed, the whole engine state around it
/// is intact: both sides stay well formed, every surviving order still
/// stands in its book, orders away from the consumed level are untouched,
/// and the totals move by exactly the consumed quantity.
#[verifier::rlimit(100)]
pub proof fn lemma_engine_after_consume(
    st_b: Store,
    st_a: Store,
    lv_b: Seq<PriceLevel>,
    lv_a: Seq<PriceLevel>,
    ov: Seq<PriceLevel>,
    i: int,
    popped: int,
    maker_side: Side,
)
    requires
        st_b.wf(),
        side_ok(st_b, lv_b, maker_side),
        side_ok(st_b, ov, maker_side.spec_opposite()),
        0 <= i < lv_b.len(),
        lv_a == lv_b.update(i, lv_a[i]),
        lv_a.len() == lv_b.len(),
        lv_a[i].price == lv_b[i].price,
        queue_consumed(
            st_b,
            st_a,
            lv_b[i].queue@,
            lv_a[i].queue@,
            popped,
            lv_b[i].price,
            maker_side,
        ),
        forall|id2: u128|
            #[trigger] st_b.has_id(id2) ==> book_contains_slot(
                if st_b.order_of(id2).side == maker_side {
                    lv_b
                } else {
                    ov
                },
                st_b.order_of(id2).price,
                st_b.slot_of(id2),
            ),
    ensures
        side_ok(st_a, lv_a, maker_side),
        side_ok(st_a, ov, maker_side.spec_opposite()),
        forall|j: int, k: int|
            0 <= j < lv_b.len() && j != i && 0 <= k < (#[trigger] lv_b[j]).queue@.len()
                ==> st_a.slots()[(#[trigger] lv_b[j].queue@[k]) as int] == st_b.slots()[
                lv_b[j].queue@[k] as int
            ],
        forall|j: int, k: int|
            0 <= j < ov.len() && 0 <= k < (#[trigger] ov[j]).queue@.len() ==> st_a.slots()[(
            #[trigger] ov[j].queue@[k]) as int] == st_b.slots()[ov[j].queue@[k] as int],
        forall|id2: u128|
            #[trigger] st_a.has_id(id2) ==> book_contains_slot(
                if st_a.order_of(id2).side == maker_side {
                    lv_a
                } else {
                    ov
                },
                st_a.order_of(id2).price,
                st_a.slot_of(id2),
            ) && st_a.order_of(id2).price == st_b.order_of(id2).price && st_a.order_of(id2).side
                == st_b.order_of(id2).side,
        forall|id2: u128|
            #[trigger] st_b.has_id(id2) && (st_b.order_of(id2).side != maker_side || st_b.order_of(
                id2,
            ).price != lv_b[i].price) ==> st_a.has_id(id2) && st_a.order_of(id2) == st_b.order_of(
                id2,
            ),
        side_qty(st_a, lv_a) == side_qty(st_b, lv_b) - queue_qty(st_b, lv_b[i].queue@) + queue_qty(
            st_a,
            lv_a[i].queue@,
        ),
        side_qty(st_a, ov) == side_qty(st_b, ov),
{
    let price = lv_b[i].price;
    let q_b = lv_b[i].queue@;
    let q_a = lv_a[i].queue@;
    // a slot in any other queue is not in the consumed one
    assert forall|j: int, k: int|
        0 <= j < lv_b.len() && j != i && 0 <= k < (#[trigger] lv_b[j]).queue@.len() implies
        st_a.slots()[(#[trigger] lv_b[j].queue@[k]) as int] == st_b.slots()[
    lv_b[j].queue@[k] as int] by {
        assert(queue_ok(st_b, lv_b[j].queue@, lv_b[j].price, maker_side));
        assert(slot_ok(st_b, lv_b[j].queue@[k], lv_b[j].price, maker_side));
        if q_b.contains(lv_b[j].queue@[k]) {
            let m = choose|m: int| 0 <= m < q_b.len() && q_b[m] == lv_b[j].queue@[k];
            assert(slot_ok(st_b, q_b[m], price, maker_side));
            assert(lv_b[j].price != price);
            assert(false);
        }
    }
    assert forall|j: int, k: int|
        0 <= j < ov.len() && 0 <= k < (#[trigger] ov[j]).queue@.len() implies st_a.slots()[(
    #[trigger] ov[j].queue@[k]) as int] == st_b.slots()[ov[j].queue@[k] as int] by {
        assert(queue_ok(st_b, ov[j].queue@, ov[j].price, maker_side.spec_opposite()));
        assert(slot_ok(st_b, ov[j].queue@[k], ov[j].price, maker_side.spec_opposite()));
        if q_b.contains(ov[j].queue@[k]) {
            let m = choose|m: int| 0 <= m < q_b.len() && q_b[m] == ov[j].queue@[k];
            assert(slot_ok(st_b, q_b[m], price, maker_side));
            assert(false);
        }
    }
    // both sides stay well formed
    assert forall|j: int| 0 <= j < ov.len() implies (#[trigger] ov[j]).price > 0 && queue_ok(
        st_a,
        ov[j].queue@,
        ov[j].price,
        maker_side.spec_opposite(),
    ) by {
        assert(queue_ok(st_b, ov[j].queue@, ov[j].price, maker_side.spec_opposite()));
        assert forall|k: int| 0 <= k < ov[j].queue@.len() implies slot_ok(
            st_a,
            #[trigger] ov[j].queue@[k],
            ov[j].price,
            maker_side.spec_opposite(),
        ) by {
            let s = ov[j].queue@[k];
            assert(slot_ok(st_b, s, ov[j].price, maker_side.spec_opposite()));
            let sid = st_b.slots()[s as int].id;
            assert(st_b.has_id(sid));
            assert(!q_b.contains(s)) by {
                if q_b.contains(s) {
                    let m = choose|m: int| 0 <= m < q_b.len() && q_b[m] == s;
                    assert(slot_ok(st_b, q_b[m], price, maker_side));
                    assert(false);
                }
            }
            assert(!q_b.take(popped).contains(s)) by {
                if q_b.take(popped).contains(s) {
                    assert(q_b.take(popped).len() == popped);
                    let m = choose|m: int| 0 <= m < q_b.take(popped).len() && q_b.take(popped)[m]
                        == s;
                    assert(0 <= m < popped);
                    assert(q_b[m] == s);
                    assert(q_b.contains(s));
                    assert(false);
                }
            }
            assert(st_a.has_id(sid));
        }
    }
    assert forall|j: int| 0 <= j < lv_a.len() implies (#[trigger] lv_a[j]).price > 0 && queue_ok(
        st_a,
        lv_a[j].queue@,
        lv_a[j].price,
        maker_side,
    ) by {
        if j == i {
            assert(queue_ok(st_a, q_a, price, maker_side));
            assert(lv_b[i].price > 0);
        } else {
            assert(lv_a[j] == lv_b[j]);
            assert(queue_ok(st_b, lv_b[j].queue@, lv_b[j].price, maker_side));
            assert forall|k: int| 0 <= k < lv_b[j].queue@.len() implies slot_ok(
                st_a,
                #[trigger] lv_b[j].queue@[k],
                lv_b[j].price,
                maker_side,
            ) by {
                assert(slot_ok(st_b, lv_b[j].queue@[k], lv_b[j].price, maker_side));
                assert(st_b.has_id(st_b.slots()[lv_b[j].queue@[k] as int].id));
                if q_b.take(popped).contains(lv_b[j].queue@[k]) {
                    let m = choose|m: int|
                        0 <= m < popped && q_b.take(popped)[m] == lv_b[j].queue@[k];
                    assert(q_b[m] == lv_b[j].queue@[k]);
                    assert(slot_ok(st_b, q_b[m], price, maker_side));
                    assert(false);
                }
            }
        }
    }
    assert(prices_sorted(lv_a)) by {
        assert forall|a: int, b: int| 0 <= a < b < lv_a.len() implies (#[trigger] lv_a[a]).price
            < (#[trigger] lv_a[b]).price by {
            assert(lv_a[a].price == lv_b[a].price);
            assert(lv_a[b].price == lv_b[b].price);
        }
    }
    // surviving orders keep their place in the books
    assert forall|id2: u128| #[trigger] st_a.has_id(id2) implies book_contains_slot(
        if st_a.order_of(id2).side == maker_side {
            lv_a
        } else {
            ov
        },
        st_a.order_of(id2).price,
        st_a.slot_of(id2),
    ) && st_a.order_of(id2).price == st_b.order_of(id2).price && st_a.order_of(id2).side
        == st_b.order_of(id2).side by {
        assert(st_b.has_id(id2));
        let o2 = st_b.order_of(id2);
        let s2 = st_b.slot_of(id2);
        st_b.lemma_live_order(id2);
        assert(st_a.slot_of(id2) == s2);
        assert(!q_b.take(popped).contains(s2)) by {
            if q_b.take(popped).contains(s2) {
                assert(q_b.take(popped).len() == popped);
                let m = choose|m: int| 0 <= m < q_b.take(popped).len() && q_b.take(popped)[m]
                    == s2;
                assert(0 <= m < popped);
                assert(q_b[m] == s2);
                assert(st_b.slots()[q_b[m] as int].id == id2);
                assert(!st_a.has_id(st_b.slots()[q_b[m] as int].id));
                assert(false);
            }
        }
        assert(st_a.order_of(id2).price == o2.price && st_a.order_of(id2).side == o2.side) by {
            if q_b.contains(s2) {
                let m = choose|m: int| 0 <= m < q_b.len() && q_b[m] == s2;
                if m < popped {
                    assert(q_b.take(popped)[m] == s2);
                    assert(q_b.take(popped).contains(s2));
                    assert(false);
                }
                assert(q_a[m - popped] == s2);
            } else {
                assert(st_a.slots()[s2 as int] == st_b.slots()[s2 as int]);
            }
        }
        assert(book_contains_slot(
            if o2.side == maker_side {
                lv_b
            } else {
                ov
            },
            o2.price,
            s2,
        ));
        if o2.side == maker_side {
            let j = choose|j: int|
                0 <= j < lv_b.len() && (#[trigger] lv_b[j]).price == o2.price && lv_b[
                    j
                ].queue@.contains(s2);
            if j == i {
                let m = choose|m: int| 0 <= m < q_b.len() && q_b[m] == s2;
                assert(m >= popped) by {
                    if m < popped {
                        assert(q_b.take(popped)[m] == s2);
                        assert(q_b.take(popped).contains(s2));
                        assert(false);
                    }
                }
                assert(q_a[m - popped] == s2);
                assert(q_a.contains(s2));
                assert(book_contains_slot(lv_a, o2.price, s2));
            } else {
                assert(lv_a[j] == lv_b[j]);
                assert(book_contains_slot(lv_a, o2.price, s2));
            }
        }
    }
    // orders away from the consumed level are untouched entirely
    assert forall|id2: u128|
        #[trigger] st_b.has_id(id2) && (st_b.order_of(id2).side != maker_side || st_b.order_of(
            id2,
        ).price != price) implies st_a.has_id(id2) && st_a.order_of(id2) == st_b.order_of(id2) by {
        st_b.lemma_live_order(id2);
        let s2 = st_b.slot_of(id2);
        if q_b.contains(s2) {
            let m = choose|m: int| 0 <= m < q_b.len() && q_b[m] == s2;
            assert(slot_ok(st_b, q_b[m], price, maker_side));
            assert(st_b.slots()[s2 as int].id == id2);
            assert(st_b.order_of(id2).side == maker_side);
            assert(st_b.order_of(id2).price == price);
            assert(false);
        }
        assert(!q_b.take(popped).contains(s2)) by {
            if q_b.take(popped).contains(s2) {
                let m = choose|m: int| 0 <= m < popped && q_b.take(popped)[m] == s2;
                assert(q_b[m] == s2);
                assert(false);
            }
        }
        assert(st_a.has_id(id2));
        assert(st_a.slots()[s2 as int] == st_b.slots()[s2 as int]);
    }
    // totals
    lemma_side_qty_update_two(st_b, st_a, lv_b, i, lv_a[i]);
    lemma_side_qty_congruence(st_a, st_b, ov);
}



/// The aggregated view of the first `count` non-empty levels of a side,
/// lowest price first: each is its price with the total resting quantity.
pub open spec fn depth_levels(store: Store, levels: Seq<PriceLevel>, count: int) -> Seq<Level>
    decreases levels.len(),
{
    if levels.len() == 0 || count <= 0 {
        Seq::empty()
    } else if levels[0].queue@.len() > 0 {
        seq![
            Level { price: levels[0].price, quantity: queue_qty(store, levels[0].queue@) as u64 },
        ] + depth_levels(store, levels.skip(1), count - 1)
    } else {
        depth_levels(store, levels.skip(1), count)
    }
}

/// The aggregated view of the last `count` non-empty levels of a side —
/// the top of the bid book — still listed lowest price first.
pub open spec fn depth_levels_top(store: Store, levels: Seq<PriceLevel>, count: int) -> Seq<Level>
    decreases levels.len(),
{
    if levels.len() == 0 || count <= 0 {
        Seq::empty()
    } else if levels.last().queue@.len() > 0 {
        depth_levels_top(store, levels.drop_last(), count - 1) + seq![
            Level {
                price: levels.last().price,
                quantity: queue_qty(store, levels.last().queue@) as u64,
            },
        ]
    } else {
        depth_levels_top(store, levels.drop_last(), count)
    }
}

/// Queue totals grow with the prefix taken.
pub proof fn lemma_queue_qty_take_step(store: Store, q: Seq<usize>, n: int)
    requires
        0 <= n < q.len(),
    ensures
        queue_qty(store, q.take(n + 1)) == queue_qty(store, q.take(n)) + store.slots()[
            q[n] as int
        ].quantity,
{
    assert(q.take(n + 1).drop_last() =~= q.take(n));
    assert(q.take(n + 1).last() == q[n]);
}

/// A prefix's total never exceeds the whole queue's.
pub proof fn lemma_queue_qty_take_bound(store: Store, q: Seq<usize>, n: int)
    requires
        0 <= n <= q.len(),
    ensures
        queue_qty(store, q.take(n)) <= queue_qty(store, q),
    decreases q.len() - n,
{
    if n == q.len() {
        assert(q.take(n) =~= q);
    } else {
        lemma_queue_qty_take_step(store, q, n);
        lemma_queue_qty_take_bound(store, q, n + 1);
    }
}

/// The total a market taker of `remaining` would spend walking the given
/// levels front first, paying each level's price for what it takes there.
pub open spec fn rfq_spent(store: Store, levels: Seq<PriceLevel>, remaining: int) -> int
    decreases levels.len(),
{
    if levels.len() == 0 || remaining <= 0 {
        0
    } else {
        let avail = queue_qty(store, levels[0].queue@);
        if avail <= remaining {
            levels[0].price * avail + rfq_spent(store, levels.skip(1), remaining - avail)
        } else {
            levels[0].price * remaining
        }
    }
}

/// What remains of a market taker of `remaining` after walking the levels.
pub open spec fn rfq_left(store: Store, levels: Seq<PriceLevel>, remaining: int) -> int
    decreases levels.len(),
{
    if levels.len() == 0 || remaining <= 0 {
        remaining
    } else {
        let avail = queue_qty(store, levels[0].queue@);
        if avail <= remaining {
            rfq_left(store, levels.skip(1), remaining - avail)
        } else {
            0
        }
    }
}

/// The quote walk never spends more than the highest possible price for
/// each unit it takes, and takes no more than asked.
pub proof fn lemma_rfq_bounds(store: Store, levels: Seq<PriceLevel>, remaining: int)
    requires
        remaining >= 0,
    ensures
        0 <= rfq_left(store, levels, remaining) <= remaining,
        rfq_spent(store, levels, remaining) <= (u64::MAX as int) * (remaining - rfq_left(
            store,
            levels,
            remaining,
        )),
        0 <= rfq_spent(store, levels, remaining),
    decreases levels.len(),
{
    if levels.len() == 0 || remaining <= 0 {
        assert((u64::MAX as int) * (remaining - remaining) == 0) by (nonlinear_arith);
    } else {
        let avail = queue_qty(store, levels[0].queue@);
        lemma_queue_qty_nonneg(store, levels[0].queue@);
        if avail <= remaining {
            lemma_rfq_bounds(store, levels.skip(1), remaining - avail);
            let left = rfq_left(store, levels.skip(1), remaining - avail);
            assert(levels[0].price * avail + rfq_spent(store, levels.skip(1), remaining - avail)
                <= (u64::MAX as int) * (remaining - left)) by (nonlinear_arith)
                requires
                    0 <= avail,
                    0 <= levels[0].price <= u64::MAX,
                    rfq_spent(store, levels.skip(1), remaining - avail) <= (u64::MAX as int) * (
                    remaining - avail - left),
                    0 <= left <= remaining - avail,
            {}
            assert(levels[0].price * avail >= 0) by (nonlinear_arith)
                requires
                    avail >= 0,
                    levels[0].price >= 0,
            {}
        } else {
            assert(levels[0].price * remaining <= (u64::MAX as int) * (remaining - 0))
                by (nonlinear_arith)
                requires
                    0 <= levels[0].price <= u64::MAX,
                    remaining >= 0,
            {}
            assert(levels[0].price * remaining >= 0) by (nonlinear_arith)
                requires
                    remaining >= 0,
                    levels[0].price >= 0,
            {}
        }
    }
}

/// A side read back to front, for walks from the best bid downward.
pub open spec fn rev_levels(levels: Seq<PriceLevel>) -> Seq<PriceLevel> {
    Seq::new(levels.len(), |i: int| levels[levels.len() - 1 - i])
}

/// The opposing side in the order the matching walk reads it: asks from
/// the lowest price up for a buying taker, bids from the highest price
/// down for a selling one.
pub open spec fn opposing_walk_view(book: OrderBook, taker_side: Side) -> Seq<PriceLevel> {
    match taker_side {
        Side::Bid => book.asks(),
        Side::Ask => rev_levels(book.bids()),
    }
}

/// What a limit placement leaves behind, stated over the state it began
/// from: the crossable opposing quantity at or inside the order's price
/// decides between creation, partial fill and full fill, and the totals
/// move by exactly the traded quantity on both sides.
pub open spec fn limit_outcome_ok(
    pre: OrderBook,
    post: OrderBook,
    order: LimitOrder,
    fr: FillResult,
) -> bool {
    let opp = pre.side_levels(order.side.spec_opposite());
    let cq = crossable_qty(pre.store(), opp, order.side, order.price);
    let rem: u64 = if cq >= order.quantity {
        0u64
    } else {
        (order.quantity - cq) as u64
    };
    &&& (rem == order.quantity ==> fr == FillResult::Created(order))
    &&& (0 < rem < order.quantity ==> (fr matches FillResult::PartiallyFilled(res, fills) && res
        == (LimitOrder { quantity: rem, ..order }) && fills_qty(fills@) == order.quantity - rem))
    &&& (rem == 0 ==> (fr matches FillResult::Filled(fills) && fills_qty(fills@)
        == order.quantity))
    &&& (rem > 0 ==> post.store().has_id(order.id) && post.store().order_of(order.id)
        == (LimitOrder { quantity: rem, ..order }))
    &&& (rem == 0 ==> !post.store().has_id(order.id) && post.side_levels(order.side)
        == pre.side_levels(order.side))
    &&& (rem == order.quantity ==> post.side_levels(order.side.spec_opposite())
        == pre.side_levels(order.side.spec_opposite()))
    &&& (rem > 0 ==> queue_at(post.side_levels(order.side), order.price) == queue_at(
        pre.side_levels(order.side),
        order.price,
    ).push(post.store().slot_of(order.id)) && has_level(post.side_levels(order.side), order.price)
        && (forall|p: u64|
        #![trigger queue_at(post.side_levels(order.side), p)]
        #![trigger queue_at(pre.side_levels(order.side), p)]
        p != order.price ==> queue_at(post.side_levels(order.side), p) == queue_at(
            pre.side_levels(order.side),
            p,
        ) && (has_level(post.side_levels(order.side), p) <==> has_level(
            pre.side_levels(order.side),
            p,
        ))))
    &&& (forall|id2: u128|
        #[trigger] pre.store().has_id(id2) && (pre.store().order_of(id2).side == order.side
            || !price_crosses(order.side, pre.store().order_of(id2).price, order.price))
            ==> post.store().has_id(id2) && post.store().order_of(id2) == pre.store().order_of(
            id2,
        ))
    &&& (forall|id2: u128|
        #[trigger] post.store().has_id(id2) && id2 != order.id ==> pre.store().has_id(id2))
    &&& (fr matches FillResult::Filled(fills) ==> fills@ == walk_fills(
        pre.store(),
        opposing_walk_view(pre, order.side),
        order.id,
        order.side,
        order.price,
        order.quantity as int,
    ))
    &&& (fr matches FillResult::PartiallyFilled(res2, fills2) ==> fills2@ == walk_fills(
        pre.store(),
        opposing_walk_view(pre, order.side),
        order.id,
        order.side,
        order.price,
        order.quantity as int,
    ))
    &&& post.total_resting() == pre.total_resting() + 2 * rem - order.quantity
}

/// What a market placement leaves behind when the opposing side was not
/// empty: the whole opposing quantity is crossable, so the order fills
/// fully or rests its remainder at the last fill's price.
pub open spec fn market_outcome_ok(
    pre: OrderBook,
    post: OrderBook,
    order: MarketOrder,
    fr: FillResult,
) -> bool {
    let opp = pre.side_levels(order.side.spec_opposite());
    let bound: u64 = match order.side {
        Side::Bid => u64::MAX,
        Side::Ask => u64::MIN,
    };
    let cq = crossable_qty(pre.store(), opp, order.side, bound);
    let rem: u64 = if cq >= order.quantity {
        0u64
    } else {
        (order.quantity - cq) as u64
    };
    &&& rem < order.quantity
    &&& (rem == 0 ==> (fr matches FillResult::Filled(fills) && fills_qty(fills@)
        == order.quantity) && !post.store().has_id(order.id))
    &&& (rem > 0 ==> (fr matches FillResult::PartiallyFilled(res, fills) && res.id == order.id
        && res.side == order.side && res.quantity == rem && fills_qty(fills@) == order.quantity
        - rem && fills@.len() > 0 && res.price == fills@.last().price && post.store().has_id(
        order.id,
    ) && post.store().order_of(order.id) == res))
    &&& (forall|id2: u128|
        #[trigger] pre.store().has_id(id2) && pre.store().order_of(id2).side == order.side
            ==> post.store().has_id(id2) && post.store().order_of(id2) == pre.store().order_of(
            id2,
        ))
    &&& (fr matches FillResult::Filled(fills) ==> fills@ == walk_fills(
        pre.store(),
        opposing_walk_view(pre, order.side),
        order.id,
        order.side,
        bound,
        order.quantity as int,
    ))
    &&& (fr matches FillResult::PartiallyFilled(res2, fills2) ==> fills2@ == walk_fills(
        pre.store(),
        opposing_walk_view(pre, order.side),
        order.id,
        order.side,
        bound,
        order.quantity as int,
    ))
    &&& post.total_resting() == pre.total_resting() + 2 * rem - order.quantity
}

/// What a modify leaves behind: nothing on failure, an in-place quantity
/// change that keeps the queue position when only the quantity differs,
/// and a removal followed by a fresh placement when the price differs.
pub open spec fn modify_outcome_ok(
    pre: OrderBook,
    post: OrderBook,
    order: LimitOrder,
    mr: ModifyResult,
) -> bool {
    let known = pre.store().has_id(order.id) && pre.store().order_of(order.id).side == order.side;
    let existing = pre.store().order_of(order.id);
    &&& (!known ==> mr == ModifyResult::Failed && post == pre)
    &&& (known && existing.price == order.price && existing.quantity == order.quantity ==> mr
        == ModifyResult::Failed && post == pre)
    &&& (known && existing.price == order.price && existing.quantity != order.quantity ==> {
        &&& mr == ModifyResult::Modified(order.id)
        &&& post.store().order_of(order.id) == order
        &&& post.bids() == pre.bids()
        &&& post.asks() == pre.asks()
        &&& (forall|id2: u128|
            #[trigger] pre.store().has_id(id2) && id2 != order.id ==> post.store().has_id(id2)
                && post.store().order_of(id2) == pre.store().order_of(id2))
        &&& post.total_resting() == pre.total_resting() - existing.quantity + order.quantity
    })
    &&& (known && existing.price != order.price ==> ({
        let cq = crossable_qty(
            pre.store(),
            pre.side_levels(order.side.spec_opposite()),
            order.side,
            order.price,
        );
        let rem: u64 = if cq >= order.quantity {
            0u64
        } else {
            (order.quantity - cq) as u64
        };
        &&& (mr matches ModifyResult::Created(fr) && {
            &&& (rem == order.quantity ==> fr == FillResult::Created(order))
            &&& (0 < rem < order.quantity ==> (fr matches FillResult::PartiallyFilled(res, fills)
                && res == (LimitOrder { quantity: rem, ..order }) && fills_qty(fills@)
                == order.quantity - rem))
            &&& (rem == 0 ==> (fr matches FillResult::Filled(fills) && fills_qty(fills@)
                == order.quantity))
        })
        &&& (forall|id2: u128|
            #[trigger] pre.store().has_id(id2) && id2 != order.id && (pre.store().order_of(
                id2,
            ).side == order.side || !price_crosses(
                order.side,
                pre.store().order_of(id2).price,
                order.price,
            )) ==> post.store().has_id(id2) && post.store().order_of(id2) == pre.store().order_of(
                id2,
            ))
        &&& (forall|id2: u128|
            #[trigger] post.store().has_id(id2) && id2 != order.id ==> pre.store().has_id(id2))
        &&& post.total_resting() == pre.total_resting() - existing.quantity + 2 * rem
            - order.quantity
    }))
}

/// What a cancel leaves behind: nothing for an unknown id; otherwise the
/// order leaves its queue, the order of the rest is kept, and its whole
/// quantity leaves the book.
pub open spec fn cancel_outcome_ok(pre: OrderBook, post: OrderBook, id: u128) -> bool {
    &&& (!pre.store().has_id(id) ==> post == pre)
    &&& (pre.store().has_id(id) ==> ({
        let o = pre.store().order_of(id);
        &&& !post.store().has_id(id)
        &&& forall|id2: u128|
            #[trigger] pre.store().has_id(id2) && id2 != id ==> post.store().has_id(id2)
                && post.store().order_of(id2) == pre.store().order_of(id2)
        &&& queue_at(post.side_levels(o.side), o.price) == remove_all(
            queue_at(pre.side_levels(o.side), o.price),
            pre.store().slot_of(id),
        )
        &&& post.side_levels(o.side.spec_opposite()) == pre.side_levels(o.side.spec_opposite())
        &&& post.total_resting() == pre.total_resting() - o.quantity
    }))
}

/// The engine: a bid side and an ask side over one order store, cached
/// tops of book, and the price of the last trade.
#[derive(Debug)]
pub struct OrderBook {
    /// An id given to the engine at creation; uniqueness is not enforced.
    id: u128,
    /// The cached best bid: the highest price with a resting bid.
    max_bid: Option<u64>,
    /// The cached best ask: the lowest price with a resting ask.
    min_ask: Option<u64>,
    /// The buy side.
    bid_side_book: BookSide,
    /// The sell side.
    ask_side_book: BookSide,
    /// Capacity hint for newly allocated level queues.
    queue_capacity: usize,
    /// The arena of order records shared by both sides.
    order_store: Store,
    /// The price of the last full fill; zero until one happens.
    last_trade_price: u64,
}

impl OrderBook {
    /// The order store.
    pub closed spec fn store(self) -> Store {
        self.order_store
    }

    /// The bid-side levels.
    pub closed spec fn bids(self) -> Seq<PriceLevel> {
        self.bid_side_book.levels@
    }

    /// The ask-side levels.
    pub closed spec fn asks(self) -> Seq<PriceLevel> {
        self.ask_side_book.levels@
    }

    /// The levels a resting order of the given side lives in.
    pub open spec fn side_levels(self, side: Side) -> Seq<PriceLevel> {
        match side {
            Side::Bid => self.bids(),
            Side::Ask => self.asks(),
        }
    }

    /// The cached best bid.
    pub closed spec fn spec_max_bid(self) -> Option<u64> {
        self.max_bid
    }

    /// The cached best ask.
    pub closed spec fn spec_min_ask(self) -> Option<u64> {
        self.min_ask
    }

    /// The engine id.
    pub closed spec fn spec_id(self) -> u128 {
        self.id
    }

    /// The queue capacity hint.
    pub closed spec fn spec_queue_capacity(self) -> usize {
        self.queue_capacity
    }

    /// The last trade price.
    pub closed spec fn spec_last_trade_price(self) -> u64 {
        self.last_trade_price
    }

    /// Every live order's slot stands in the queue of its price on its
    /// side.
    pub open spec fn complete(self) -> bool {
        forall|id: u128|
            #[trigger] self.store().has_id(id) ==> book_contains_slot(
                self.side_levels(self.store().order_of(id).side),
                self.store().order_of(id).price,
                self.store().slot_of(id),
            )
    }

    /// The store and both sides are well formed and agree with each other.
    pub open spec fn books_ok(self) -> bool {
        &&& self.store().wf()
        &&& side_ok(self.store(), self.bids(), Side::Bid)
        &&& side_ok(self.store(), self.asks(), Side::Ask)
        &&& self.complete()
    }

    /// The cached tops name the best non-empty level of each side, and
    /// `None` exactly when a side holds nothing.
    pub open spec fn tops_ok(self) -> bool {
        &&& match self.spec_max_bid() {
            None => side_all_empty(self.bids()),
            Some(p) => top_price_is(self.bids(), p, Side::Bid),
        }
        &&& match self.spec_min_ask() {
            None => side_all_empty(self.asks()),
            Some(p) => top_price_is(self.asks(), p, Side::Ask),
        }
    }

    /// At rest the book never crosses: every resting bid is priced below
    /// every resting ask.
    pub open spec fn non_crossing(self) -> bool {
        forall|i: int, j: int|
            0 <= i < self.bids().len() && 0 <= j < self.asks().len() && (
            #[trigger] self.bids()[i]).queue@.len() > 0 && (#[trigger] self.asks()[j]).queue@.len()
                > 0 ==> self.bids()[i].price < self.asks()[j].price
    }

    /// The engine invariant, holding between calls to `execute`.
    pub open spec fn wf(self) -> bool {
        &&& self.books_ok()
        &&& self.tops_ok()
        &&& self.non_crossing()
    }

    /// The total quantity resting in the book, both sides together.
    pub open spec fn total_resting(self) -> int {
        side_qty(self.store(), self.bids()) + side_qty(self.store(), self.asks())
    }

    /// Engine identity and configuration are untouched by operations.
    pub open spec fn same_config(self, other: OrderBook) -> bool {
        &&& self.spec_id() == other.spec_id()
        &&& self.spec_queue_capacity() == other.spec_queue_capacity()
    }

    /// Whenever both tops are defined, the book does not cross.
    /// The gap between best bid and best ask is the resting state of every
    /// well-formed engine.
    pub proof fn lemma_tops_do_not_cross(self)
        requires
            self.wf(),
            self.spec_max_bid() is Some,
            self.spec_min_ask() is Some,
        ensures
            self.spec_max_bid().unwrap() < self.spec_min_ask().unwrap(),
    {
        let pb = self.spec_max_bid().unwrap();
        let pa = self.spec_min_ask().unwrap();
        let i = choose|i: int|
            0 <= i < self.bids().len() && (#[trigger] self.bids()[i]).price == pb && self.bids()[
                i
            ].queue@.len() > 0;
        let j = choose|j: int|
            0 <= j < self.asks().len() && (#[trigger] self.asks()[j]).price == pa && self.asks()[
                j
            ].queue@.len() > 0;
        assert(self.bids()[i].price < self.asks()[j].price);
    }

    /// Builds an engine with the given queue-capacity hint and a store of
    /// `store_capacity` pre-allocated slots; the engine id is freshly
    /// generated.
    pub fn new(queue_capacity: usize, store_capacity: usize) -> (r: OrderBook)
        ensures
            r.wf(),
            r.spec_max_bid() is None,
            r.spec_min_ask() is None,
            r.bids().len() == 0,
            r.asks().len() == 0,
            r.store().id_map() == Map::<u128, usize>::empty(),
            r.total_resting() == 0,
            r.spec_queue_capacity() == queue_capacity,
            r.spec_last_trade_price() == 0,
    {
        OrderBook {
            id: fresh_order_id(),
            max_bid: None,
            min_ask: None,
            bid_side_book: BookSide::new(),
            ask_side_book: BookSide::new(),
            order_store: Store::new(store_capacity),
            queue_capacity,
            last_trade_price: 0,
        }
    }

    /// The engine id.
    pub fn get_id(&self) -> (r: u128)
        ensures
            r == self.spec_id(),
    {
        self.id
    }

    /// The cached best bid, `None` when no bid rests.
    pub fn get_max_bid(&self) -> (r: Option<u64>)
        ensures
            r == self.spec_max_bid(),
    {
        self.max_bid
    }

    /// The cached best ask, `None` when no ask rests.
    pub fn get_min_ask(&self) -> (r: Option<u64>)
        ensures
            r == self.spec_min_ask(),
    {
        self.min_ask
    }

    /// The price of the last full fill, zero before any trade.
    pub fn get_last_trade_price(&self) -> (r: u64)
        ensures
            r == self.spec_last_trade_price(),
    {
        self.last_trade_price
    }

    /// The best price of one side: scans for the extreme non-empty level.
    #[verifier::loop_isolation(false)]
    fn side_top(book: &BookSide, side: Side) -> (r: Option<u64>)
        requires
            prices_sorted(book.levels@),
        ensures
            match r {
                None => side_all_empty(book.levels@),
                Some(p) => top_price_is(book.levels@, p, side),
            },
    {
        match side {
            Side::Bid => {
                let mut i: usize = book.levels.len();
                while i > 0
                    invariant
                        i <= book.levels@.len(),
                        prices_sorted(book.levels@),
                        forall|j: int|
                            i <= j < book.levels@.len() ==> (#[trigger] book.levels@[j]).queue@.len()
                                == 0,
                    decreases i,
                {
                    i -= 1;
                    if book.levels[i].queue.len() > 0 {
                        proof {
                            assert(book.levels@[i as int].queue@.len() > 0);
                            assert forall|j: int|
                                0 <= j < book.levels@.len() && (
                                #[trigger] book.levels@[j]).queue@.len() > 0 implies book.levels@[
                                j
                            ].price <= book.levels@[i as int].price by {
                                if j > i {
                                    assert(book.levels@[j].queue@.len() == 0);
                                }
                            }
                        }
                        return Some(book.levels[i].price);
                    }
                }
                None
            },
            Side::Ask => {
                let mut i: usize = 0;
                while i < book.levels.len()
                    invariant
                        i <= book.levels@.len(),
                        prices_sorted(book.levels@),
                        forall|j: int| 0 <= j < i ==> (#[trigger] book.levels@[j]).queue@.len() == 0,
                    decreases book.levels@.len() - i,
                {
                    if book.levels[i].queue.len() > 0 {
                        proof {
                            assert(book.levels@[i as int].queue@.len() > 0);
                            assert forall|j: int|
                                0 <= j < book.levels@.len() && (
                                #[trigger] book.levels@[j]).queue@.len() > 0 implies book.levels@[
                                j
                            ].price >= book.levels@[i as int].price by {
                                if j < i {
                                    assert(book.levels@[j].queue@.len() == 0);
                                }
                            }
                        }
                        return Some(book.levels[i].price);
                    }
                    i += 1;
                }
                None
            },
        }
    }

    /// Recomputes both cached tops from the books.
    fn refresh_tops(&mut self)
        requires
            old(self).books_ok(),
        ensures
            final(self).books_ok(),
            final(self).tops_ok(),
            final(self).store() == old(self).store(),
            final(self).bids() == old(self).bids(),
            final(self).asks() == old(self).asks(),
            final(self).same_config(*old(self)),
            final(self).spec_last_trade_price() == old(self).spec_last_trade_price(),
    {
        self.max_bid = Self::side_top(&self.bid_side_book, Side::Bid);
        self.min_ask = Self::side_top(&self.ask_side_book, Side::Ask);
    }

    /// Consumes the FIFO queue of one price level against a taker: makers
    /// leave from the front, each match appending one fill, until the
    /// taker's remaining quantity or the queue is exhausted; a maker
    /// larger than the remainder is reduced in place. Returns how many
    /// makers left the queue.
    ///
    /// Fills report the makers front-first; the queue keeps its order; no
    /// quantity is created or lost; records outside this queue and live
    /// orders other than the consumed makers are untouched.
    fn process_queue_limit(
        id: &u128,
        price: u64,
        side: Side,
        remaining_quantity: &mut u64,
        queue: &mut Vec<usize>,
        store: &mut Store,
        order_fills: &mut Vec<FillMetaData>,
    ) -> (popped: usize)
        requires
            old(store).wf(),
            queue_ok(*old(store), old(queue)@, price, side.spec_opposite()),
        ensures
            final(store).wf(),
            queue_ok(*final(store), final(queue)@, price, side.spec_opposite()),
            popped <= old(queue)@.len(),
            final(queue)@ == old(queue)@.skip(popped as int),
            *final(remaining_quantity) <= *old(remaining_quantity),
            *final(remaining_quantity) > 0 ==> final(queue)@.len() == 0,
            final(store).slots().len() == old(store).slots().len(),
            forall|s: int|
                #![trigger final(store).slots()[s]]
                0 <= s < old(store).slots().len() && !old(queue)@.contains(s as usize) ==> final(store).slots()[s] == old(store).slots()[s],
            forall|id2: u128|
                #[trigger] final(store).has_id(id2) ==> old(store).has_id(id2) && final(store).slot_of(id2) == old(store).slot_of(id2),
            forall|id2: u128|
                #[trigger] old(store).has_id(id2) && !old(queue)@.take(popped as int).contains(
                    old(store).slot_of(id2),
                ) ==> final(store).has_id(id2),
            forall|j: int|
                0 <= j < popped ==> !final(store).has_id(
                    old(store).slots()[(#[trigger] old(queue)@[j]) as int].id,
                ) && final(store).slots()[old(queue)@[j] as int].quantity == 0,
            final(order_fills)@ == old(order_fills)@ + final(order_fills)@.skip(
                old(order_fills)@.len() as int,
            ),
            final(order_fills)@.len() == old(order_fills)@.len() + popped || final(order_fills)@.len() == old(order_fills)@.len() + popped + 1,
            forall|j: int|
                0 <= j < final(order_fills)@.len() - old(order_fills)@.len() ==> {
                    let fill = #[trigger] final(order_fills)@[old(order_fills)@.len() + j];
                    &&& fill.order_id == *id
                    &&& fill.taker_side == side
                    &&& fill.price == price
                    &&& fill.matched_order_id == old(store).slots()[old(queue)@[j] as int].id
                    &&& fill.quantity > 0
                    &&& (j < popped ==> fill.quantity == old(store).slots()[
                        old(queue)@[j] as int
                    ].quantity)
                },
            fills_qty(final(order_fills)@.skip(old(order_fills)@.len() as int)) == *old(remaining_quantity) - *final(remaining_quantity),
            final(order_fills)@.skip(old(order_fills)@.len() as int) == level_fills(
                *old(store),
                old(queue)@,
                *old(remaining_quantity) as int,
                *id,
                side,
                price,
            ),
            queue_qty(*final(store), final(queue)@) == queue_qty(*old(store), old(queue)@) - (*old(remaining_quantity) - *final(remaining_quantity)),
            final(order_fills)@.len() == old(order_fills)@.len() + popped ==> forall|m: int|
                0 <= m < final(queue)@.len() ==> final(store).slots()[(
                #[trigger] final(queue)@[m]) as int] == old(store).slots()[final(queue)@[m] as int],
            final(order_fills)@.len() == old(order_fills)@.len() + popped + 1 ==> {
                &&& *final(remaining_quantity) == 0
                &&& popped < old(queue)@.len()
                &&& final(queue)@.len() > 0
                &&& forall|m: int|
                    1 <= m < final(queue)@.len() ==> final(store).slots()[(
                    #[trigger] final(queue)@[m]) as int] == old(store).slots()[final(queue)@[m] as int]
                &&& final(store).slots()[final(queue)@[0] as int].quantity == old(store).slots()[
                    final(queue)@[0] as int
                ].quantity - final(order_fills)@.last().quantity
            },
    {
        let ghost q0 = queue@;
        let ghost f0 = order_fills@;
        let ghost r0 = *remaining_quantity;
        let initial_len = queue.len();
        let mut popped: usize = 0;
        proof {
            assert(Seq::<FillMetaData>::empty() + level_fills(
                *old(store),
                q0,
                r0 as int,
                *id,
                side,
                price,
            ) =~= level_fills(*old(store), q0, r0 as int, *id, side, price));
            assert(order_fills@.skip(f0.len() as int) =~= Seq::<FillMetaData>::empty());
        }
        while queue.len() > 0 && *remaining_quantity > 0 && store.index(queue[0]).quantity
            <= *remaining_quantity
            invariant
                store.wf(),
                queue_ok(*store, queue@, price, side.spec_opposite()),
                old(store).wf(),
                queue_ok(*old(store), q0, price, side.spec_opposite()),
                q0 == old(queue)@,
                f0 == old(order_fills)@,
                r0 == *old(remaining_quantity),
                q0.len() == initial_len,
                popped <= q0.len(),
                queue@ == q0.skip(popped as int),
                *remaining_quantity <= r0,
                store.slots().len() == old(store).slots().len(),
                forall|s: int|
                    #![trigger store.slots()[s]]
                    0 <= s < old(store).slots().len() && !q0.contains(s as usize) ==> store.slots()[
                        s
                    ] == old(store).slots()[s],
                forall|m: int|
                    popped <= m < q0.len() ==> store.slots()[(#[trigger] q0[m]) as int] == old(store).slots()[q0[m] as int],
                forall|id2: u128|
                    #[trigger] store.has_id(id2) ==> old(store).has_id(id2) && store.slot_of(id2)
                        == old(store).slot_of(id2),
                forall|id2: u128|
                    #[trigger] old(store).has_id(id2) && !q0.take(popped as int).contains(
                        old(store).slot_of(id2),
                    ) ==> store.has_id(id2),
                forall|j: int|
                    0 <= j < popped ==> !store.has_id(
                        old(store).slots()[(#[trigger] q0[j]) as int].id,
                    ) && store.slots()[q0[j] as int].quantity == 0,
                order_fills@.len() == f0.len() + popped,
                order_fills@.take(f0.len() as int) == f0,
                forall|j: int|
                    0 <= j < popped ==> {
                        let fill = #[trigger] order_fills@[f0.len() + j];
                        &&& fill.order_id == *id
                        &&& fill.taker_side == side
                        &&& fill.price == price
                        &&& fill.matched_order_id == old(store).slots()[q0[j] as int].id
                        &&& fill.quantity == old(store).slots()[q0[j] as int].quantity
                        &&& fill.quantity > 0
                    },
                fills_qty(order_fills@.skip(f0.len() as int)) == r0 - *remaining_quantity,
                level_fills(*old(store), q0, r0 as int, *id, side, price) == order_fills@.skip(
                    f0.len() as int,
                ) + level_fills(*old(store), queue@, *remaining_quantity as int, *id, side, price),
                queue_qty(*store, queue@) == queue_qty(*old(store), q0) - (r0
                    - *remaining_quantity),
            decreases queue@.len(),
        {
            let front = queue[0];
            let data = store.index(front);
            let ghost store_before = *store;
            let ghost queue_before = queue@;
            let ghost fills_before = order_fills@;
            let ghost rq_b = *remaining_quantity;
            proof {
                lemma_queue_qty_first(*store, queue@);
                assert(q0.skip(popped as int)[0] == q0[popped as int]);
                assert(q0.contains(q0[popped as int]));
            }
            order_fills.push(
                FillMetaData {
                    order_id: *id,
                    matched_order_id: data.id,
                    taker_side: side,
                    price,
                    quantity: data.quantity,
                },
            );
            *remaining_quantity = *remaining_quantity - data.quantity;
            store.delete(&data.id);
            queue.remove(0);
            popped = popped + 1;
            proof {
                let p = popped as int;
                assert(queue@ =~= q0.skip(p));
                assert(order_fills@.take(f0.len() as int) =~= f0);
                assert forall|x: usize| #[trigger]
                    q0.take(p - 1).contains(x) implies q0.take(p).contains(x) by {
                    let j = choose|j: int| 0 <= j < p - 1 && (#[trigger] q0.take(p - 1)[j]) == x;
                    assert(q0.take(p)[j] == x);
                }
                assert(q0.take(p)[p - 1] == q0[p - 1]);
                assert(q0.take(p).contains(q0[p - 1]));
                // the new fill is exactly the consumed front
                assert(order_fills@.skip(f0.len() as int).drop_last() =~= fills_before.skip(
                    f0.len() as int,
                ));
                assert(order_fills@.skip(f0.len() as int).last() == order_fills@.last());
                assert(order_fills@.skip(f0.len() as int) =~= fills_before.skip(f0.len() as int)
                    + seq![order_fills@.last()]);
                // the consumed front matches the spec-level walk of the queue
                assert(old(store).slots()[front as int] == data) by {
                    assert(q0[p - 1] == front);
                }
                assert(queue_before[0] == front);
                assert(level_fills(*old(store), queue_before, rq_b as int, *id, side, price)
                    =~= seq![order_fills@.last()] + level_fills(
                    *old(store),
                    queue@,
                    *remaining_quantity as int,
                    *id,
                    side,
                    price,
                )) by {
                    assert(queue_before.skip(1) =~= queue@);
                }
                assert(fills_before.skip(f0.len() as int) + (seq![order_fills@.last()]
                    + level_fills(
                    *old(store),
                    queue@,
                    *remaining_quantity as int,
                    *id,
                    side,
                    price,
                )) =~= order_fills@.skip(f0.len() as int) + level_fills(
                    *old(store),
                    queue@,
                    *remaining_quantity as int,
                    *id,
                    side,
                    price,
                ));
                // queue total decomposes at the consumed front
                assert forall|k: int| 0 <= k < queue@.len() implies store.slots()[(
                #[trigger] queue@[k]) as int] == store_before.slots()[queue@[k] as int] by {
                    assert(queue_before[k + 1] == queue@[k]);
                    assert(queue_before.no_duplicates());
                    assert(queue_before[0] != queue_before[k + 1]);
                }
                assert forall|m: int| p <= m < q0.len() implies store.slots()[(
                #[trigger] q0[m]) as int] == old(store).slots()[q0[m] as int] by {
                    assert(queue@[m - p] == q0[m]);
                    assert(store.slots()[queue@[m - p] as int] == store_before.slots()[queue@[m
                        - p] as int]);
                    assert(store_before.slots()[q0[m] as int] == old(store).slots()[q0[m] as int]);
                }
                // live ids shrink by exactly the consumed maker
                assert(store_before.slot_of(data.id) == front);
                assert(store.id_map() == store_before.id_map().remove(data.id));
                assert forall|id2: u128| #[trigger] store.has_id(id2) implies old(store).has_id(
                    id2,
                ) && store.slot_of(id2) == old(store).slot_of(id2) by {
                    assert(store_before.has_id(id2));
                    assert(store.slot_of(id2) == store_before.slot_of(id2));
                }
                assert forall|id2: u128|
                    #[trigger] old(store).has_id(id2) && !q0.take(p).contains(
                        old(store).slot_of(id2),
                    ) implies store.has_id(id2) by {
                    assert(!q0.take(p - 1).contains(old(store).slot_of(id2)));
                    assert(store_before.has_id(id2));
                    if id2 == data.id {
                        assert(old(store).slot_of(id2) == store_before.slot_of(id2));
                        assert(old(store).slot_of(id2) == q0[p - 1]);
                        assert(false);
                    }
                }
                assert forall|j: int| 0 <= j < p implies !store.has_id(
                    old(store).slots()[(#[trigger] q0[j]) as int].id,
                ) && store.slots()[q0[j] as int].quantity == 0 by {
                    if j == p - 1 {
                        assert(old(store).slots()[q0[j] as int] == store_before.slots()[
                        q0[j] as int]);
                        assert(old(store).slots()[q0[j] as int].id == data.id);
                        assert(!store.has_id(data.id));
                    } else {
                        assert(q0[j] != q0[p - 1]);
                        assert(!store_before.has_id(old(store).slots()[q0[j] as int].id));
                        if store.has_id(old(store).slots()[q0[j] as int].id) {
                            assert(store_before.has_id(old(store).slots()[q0[j] as int].id));
                        }
                    }
                }
                lemma_queue_qty_congruence(*store, store_before, queue@);
                assert(queue_before.skip(1) =~= queue@);
                // liveness of the remaining queue under the shrunk store
                assert forall|k: int| 0 <= k < queue@.len() implies slot_ok(
                    *store,
                    queue@[k],
                    price,
                    side.spec_opposite(),
                ) by {
                    assert(queue_before[k + 1] == queue@[k]);
                    assert(slot_ok(store_before, queue@[k], price, side.spec_opposite()));
                    assert(queue_before[0] != queue_before[k + 1]);
                    let sid = store_before.slots()[queue@[k] as int].id;
                    assert(store_before.slot_of(sid) == queue@[k]);
                    assert(sid != data.id);
                }
                assert(queue@.no_duplicates()) by {
                    assert forall|a: int, b: int| 0 <= a < b < queue@.len() implies queue@[a]
                        != queue@[b] by {
                        assert(queue_before[a + 1] == queue@[a]);
                        assert(queue_before[b + 1] == queue@[b]);
                    }
                }
            }
        }
        if queue.len() > 0 && *remaining_quantity > 0 {
            let front = queue[0];
            let data = store.index(front);
            proof {
                lemma_queue_qty_first(*store, queue@);
                assert(q0.skip(popped as int)[0] == q0[popped as int]);
            }
            proof {
                assert(q0.contains(q0[popped as int]));
            }
            let ghost store_before = *store;
            let ghost fills_before = order_fills@;
            store.set_quantity(front, data.quantity - *remaining_quantity);
            order_fills.push(
                FillMetaData {
                    order_id: *id,
                    matched_order_id: data.id,
                    taker_side: side,
                    price,
                    quantity: *remaining_quantity,
                },
            );
            *remaining_quantity = 0;
            proof {
                let p = popped as int;
                assert(order_fills@.take(f0.len() as int) =~= f0);
                assert(order_fills@.skip(f0.len() as int).drop_last() =~= fills_before.skip(
                    f0.len() as int,
                ));
                assert(order_fills@.skip(f0.len() as int).last() == order_fills@.last());
                // the quantity update leaves the id index untouched
                assert(store.id_map() == store_before.id_map());
                assert forall|id2: u128| #[trigger] store.has_id(id2) implies store_before.has_id(
                    id2,
                ) && store.slot_of(id2) == store_before.slot_of(id2) by {}
                assert forall|id2: u128| #[trigger] store_before.has_id(id2) implies store.has_id(
                    id2,
                ) by {}
                lemma_queue_qty_first(*store, queue@);
                assert forall|k: int| 1 <= k < queue@.len() implies store.slots()[(
                #[trigger] queue@[k]) as int] == store_before.slots()[queue@[k] as int] by {
                    assert(queue@.no_duplicates());
                    assert(queue@[0] != queue@[k]);
                }
                lemma_queue_qty_congruence(*store, store_before, queue@.skip(1));
                assert forall|k: int| 0 <= k < queue@.len() implies slot_ok(
                    *store,
                    queue@[k],
                    price,
                    side.spec_opposite(),
                ) by {
                    assert(slot_ok(store_before, queue@[k], price, side.spec_opposite()));
                    if k > 0 {
                        assert(queue@[0] != queue@[k]);
                    }
                }
            }
        }
        popped
    }

    /// Rests a fresh order in the store and at the back of the queue of
    /// its price on its side, creating the level if need be. Returns the
    /// slot the order now lives in. Everything else in the books — other
    /// prices, the other side, every other live order — stays as it was.
    #[verifier::rlimit(100)]
    fn rest_order(&mut self, order: LimitOrder) -> (slot: usize)
        requires
            old(self).books_ok(),
            limit_order_wf(order),
            !old(self).store().has_id(order.id),
        ensures
            final(self).books_ok(),
            final(self).same_config(*old(self)),
            final(self).spec_last_trade_price() == old(self).spec_last_trade_price(),
            final(self).spec_max_bid() == old(self).spec_max_bid(),
            final(self).spec_min_ask() == old(self).spec_min_ask(),
            final(self).store().has_id(order.id),
            slot == final(self).store().slot_of(order.id),
            final(self).store().order_of(order.id) == order,
            final(self).store().id_map() == old(self).store().id_map().insert(order.id, slot),
            forall|id2: u128|
                #[trigger] old(self).store().has_id(id2) ==> id2 != order.id && final(self).store().has_id(id2) && final(self).store().slot_of(id2) == old(self).store().slot_of(id2) && final(self).store().order_of(id2) == old(self).store().order_of(id2),
            forall|id2: u128|
                #[trigger] final(self).store().has_id(id2) ==> id2 == order.id || old(self).store().has_id(id2),
            queue_at(final(self).side_levels(order.side), order.price) == queue_at(
                old(self).side_levels(order.side),
                order.price,
            ).push(slot),
            has_level(final(self).side_levels(order.side), order.price),
            forall|p: u64|
                #![trigger queue_at(final(self).side_levels(order.side), p)]
                #![trigger has_level(final(self).side_levels(order.side), p)]
                #![trigger queue_at(old(self).side_levels(order.side), p)]
                #![trigger has_level(old(self).side_levels(order.side), p)]
                p != order.price ==> queue_at(final(self).side_levels(order.side), p) == queue_at(
                    old(self).side_levels(order.side),
                    p,
                ) && (has_level(final(self).side_levels(order.side), p) <==> has_level(
                    old(self).side_levels(order.side),
                    p,
                )),
            forall|i: int|
                0 <= i < final(self).side_levels(order.side).len() && (#[trigger] final(self).side_levels(order.side)[i]).queue@.len() > 0 ==> final(self).side_levels(
                    order.side,
                )[i].price == order.price || exists|j: int|
                    0 <= j < old(self).side_levels(order.side).len() && (#[trigger] old(self).side_levels(order.side)[j]).price == final(self).side_levels(order.side)[
                        i
                    ].price && old(self).side_levels(order.side)[j].queue@.len() > 0,
            final(self).side_levels(order.side.spec_opposite()) == old(self).side_levels(
                order.side.spec_opposite(),
            ),
            side_qty(final(self).store(), final(self).side_levels(order.side)) == side_qty(
                old(self).store(),
                old(self).side_levels(order.side),
            ) + order.quantity,
            side_qty(final(self).store(), final(self).side_levels(order.side.spec_opposite()))
                == side_qty(
                old(self).store(),
                old(self).side_levels(order.side.spec_opposite()),
            ),
    {
        let ghost st0 = self.order_store;
        let ghost lv0 = old(self).side_levels(order.side);
        let ghost opp0 = old(self).side_levels(order.side.spec_opposite());
        let slot = self.order_store.insert(order);
        let ghost st1 = self.order_store;
        proof {
            // the arena changed nowhere but the slot the insert used
            if st0.free().len() > 0 {
                assert(st1.slots() == st0.slots().update(slot as int, order));
            } else {
                assert(st1.slots() == st0.slots().push(order));
            }
            assert forall|x: int| 0 <= x < st0.slots().len() && x != slot as int implies st1.slots()[
                x
            ] == st0.slots()[x] by {}
            lemma_queue_slots_live(st0, old(self).bids(), Side::Bid);
            lemma_queue_slots_live(st0, old(self).asks(), Side::Ask);
            assert(!st0.slot_live(slot as int));
            // so no slot standing in a queue moved
            assert forall|i: int, k: int|
                0 <= i < lv0.len() && 0 <= k < (#[trigger] lv0[i]).queue@.len() implies (
            #[trigger] lv0[i].queue@[k]) != slot && st1.slots()[lv0[i].queue@[k] as int]
                == st0.slots()[lv0[i].queue@[k] as int] && (lv0[i].queue@[k] as int)
                < st1.slots().len() by {
                assert(st0.slot_live(lv0[i].queue@[k] as int));
            }
            assert forall|i: int, k: int|
                0 <= i < opp0.len() && 0 <= k < (#[trigger] opp0[i]).queue@.len() implies (
            #[trigger] opp0[i].queue@[k]) != slot && st1.slots()[opp0[i].queue@[k] as int]
                == st0.slots()[opp0[i].queue@[k] as int] && (opp0[i].queue@[k] as int)
                < st1.slots().len() by {
                assert(st0.slot_live(opp0[i].queue@[k] as int));
            }
            // live ids and their records are all kept
            assert forall|id2: u128| #[trigger] st0.has_id(id2) implies id2 != order.id
                && st1.has_id(id2) && st1.slot_of(id2) == st0.slot_of(id2) && st1.order_of(id2)
                == st0.order_of(id2) by {
                st0.lemma_live_order(id2);
                assert(st0.slot_live(st0.slot_of(id2) as int));
                assert(!st0.slot_live(slot as int));
            }
            lemma_side_ok_untouched(st0, st1, old(self).bids(), Side::Bid);
            lemma_side_ok_untouched(st0, st1, old(self).asks(), Side::Ask);
        }
        let idx: usize;
        match order.side {
            Side::Bid => {
                idx = self.bid_side_book.push_back(order.price, slot, self.queue_capacity);
            },
            Side::Ask => {
                idx = self.ask_side_book.push_back(order.price, slot, self.queue_capacity);
            },
        }
        proof {
            let side = order.side;
            let lv1 = self.side_levels(side);
            assert(self.side_levels(side.spec_opposite()) == opp0);
            assert(pushed_level_shape(lv0, lv1, idx as int, order.price, slot)) by {
                let b0 = match side {
                    Side::Bid => old(self).bid_side_book,
                    Side::Ask => old(self).ask_side_book,
                };
                assert(b0.levels@ == lv0);
                if b0.has_price(order.price) {
                    let w = choose|w: int|
                        0 <= w < b0.levels@.len() && (#[trigger] b0.levels@[w]).price
                            == order.price;
                    assert(has_level(lv0, order.price));
                } else {
                    if has_level(lv0, order.price) {
                        let w = choose|w: int|
                            0 <= w < lv0.len() && (#[trigger] lv0[w]).price == order.price;
                        assert(b0.has_price(order.price));
                    }
                }
            }
            assert(slot_ok(st1, slot, order.price, side));
            lemma_push_side_ok(st1, lv0, lv1, idx as int, order.price, slot, side);
            lemma_push_queue_at(lv0, lv1, idx as int, order.price, slot);
            lemma_push_qty(st0, st1, lv0, lv1, idx as int, order.price, slot);
            assert(st1.slots()[slot as int].quantity == order.quantity);
            assert forall|id2: u128| #[trigger] st0.has_id(id2) implies book_contains_slot(
                if st0.order_of(id2).side == side {
                    lv0
                } else {
                    opp0
                },
                st0.order_of(id2).price,
                st0.slot_of(id2),
            ) by {
                assert(book_contains_slot(
                    old(self).side_levels(st0.order_of(id2).side),
                    st0.order_of(id2).price,
                    st0.slot_of(id2),
                ));
            }
            lemma_push_complete(st0, st1, lv0, lv1, opp0, side, order, slot, idx as int);
            assert forall|id2: u128| #[trigger] st1.has_id(id2) implies book_contains_slot(
                self.side_levels(st1.order_of(id2).side),
                st1.order_of(id2).price,
                st1.slot_of(id2),
            ) by {
                assert(book_contains_slot(
                    if st1.order_of(id2).side == side {
                        lv1
                    } else {
                        opp0
                    },
                    st1.order_of(id2).price,
                    st1.slot_of(id2),
                ));
            }
            lemma_side_qty_congruence(st1, st0, opp0);
        }
        slot
    }
    /// Matches a buying taker against the ask side: consumes levels from
    /// the lowest price upward while their price is within `bound` and
    /// quantity remains, appending one fill per match. Exactly the
    /// crossable quantity is consumed, capped by the taker's remainder;
    /// the bid side, the asks above the bound, and the cached tops are
    /// untouched.
    #[verifier::rlimit(100)]
    fn walk_asks(
        &mut self,
        taker_id: u128,
        bound: u64,
        remaining_quantity: &mut u64,
        order_fills: &mut Vec<FillMetaData>,
    )
        requires
            old(self).books_ok(),
            old(order_fills)@.len() == 0,
        ensures
            final(self).books_ok(),
            final(self).same_config(*old(self)),
            final(self).spec_last_trade_price() == old(self).spec_last_trade_price(),
            final(self).spec_max_bid() == old(self).spec_max_bid(),
            final(self).spec_min_ask() == old(self).spec_min_ask(),
            final(self).bids() == old(self).bids(),
            *final(remaining_quantity) <= *old(remaining_quantity),
            *final(remaining_quantity) == ({
                let cq = crossable_qty(old(self).store(), old(self).asks(), Side::Bid, bound);
                if cq >= *old(remaining_quantity) {
                    0u64
                } else {
                    (*old(remaining_quantity) - cq) as u64
                }
            }),
            *final(remaining_quantity) > 0 ==> forall|j: int|
                0 <= j < final(self).asks().len() && (#[trigger] final(self).asks()[j]).price
                    <= bound ==> final(self).asks()[j].queue@.len() == 0,
            final(self).asks().len() == old(self).asks().len(),
            forall|j: int|
                0 <= j < old(self).asks().len() ==> (#[trigger] final(self).asks()[j]).price == old(self).asks()[j].price && (final(self).asks()[j].queue@.len() > 0 ==> old(self).asks()[
                    j
                ].queue@.len() > 0),
            forall|j: int|
                0 <= j < old(self).asks().len() ==> queue_qty(
                    final(self).store(),
                    (#[trigger] final(self).asks()[j]).queue@,
                ) == level_remainder(
                    old(self).store(),
                    old(self).asks(),
                    Side::Bid,
                    bound,
                    *old(remaining_quantity) as int,
                    j,
                ),
            forall|id2: u128|
                #[trigger] final(self).store().has_id(id2) ==> old(self).store().has_id(id2)
                    && final(self).store().slot_of(id2) == old(self).store().slot_of(id2),
            forall|id2: u128|
                #[trigger] old(self).store().has_id(id2) && (old(self).store().order_of(id2).side
                    == Side::Bid || old(self).store().order_of(id2).price > bound) ==> final(self).store().has_id(id2) && final(self).store().order_of(id2) == old(self).store().order_of(id2),
            fills_qty(final(order_fills)@) == *old(remaining_quantity) - *final(remaining_quantity),
            final(order_fills)@ == walk_fills(
                old(self).store(),
                old(self).asks(),
                taker_id,
                Side::Bid,
                bound,
                *old(remaining_quantity) as int,
            ),
            *final(remaining_quantity) == *old(remaining_quantity) ==> final(order_fills)@.len()
                == 0 && final(self).asks() == old(self).asks() && final(self).store() == old(self).store(),
            forall|j: int|
                0 <= j < final(order_fills)@.len() ==> {
                    let fill = #[trigger] final(order_fills)@[j];
                    &&& fill.order_id == taker_id
                    &&& fill.taker_side == Side::Bid
                    &&& fill.price <= bound
                    &&& fill.price > 0
                    &&& fill.quantity > 0
                },
            side_qty(final(self).store(), final(self).asks()) == side_qty(
                old(self).store(),
                old(self).asks(),
            ) - (*old(remaining_quantity) - *final(remaining_quantity)),
            side_qty(final(self).store(), final(self).bids()) == side_qty(
                old(self).store(),
                old(self).bids(),
            ),
    {
        let ghost st_in = old(self).store();
        let ghost av_in = old(self).asks();
        let ghost bv_in = old(self).bids();
        let ghost rq_in = *remaining_quantity;
        let mut i: usize = 0;
        proof {
            assert(av_in.skip(0) =~= av_in);
            assert(Seq::<FillMetaData>::empty() + walk_fills(
                st_in,
                av_in,
                taker_id,
                Side::Bid,
                bound,
                rq_in as int,
            ) =~= walk_fills(st_in, av_in, taker_id, Side::Bid, bound, rq_in as int));
        }
        while i < self.ask_side_book.levels.len() && *remaining_quantity > 0
            && self.ask_side_book.levels[i].price <= bound
            invariant
                i <= self.ask_side_book.levels@.len(),
                self.order_store.wf(),
                side_ok(self.order_store, self.asks(), Side::Ask),
                side_ok(self.order_store, self.bids(), Side::Bid),
                self.complete(),
                self.bid_side_book.levels@ == bv_in,
                self.max_bid == old(self).spec_max_bid(),
                self.min_ask == old(self).spec_min_ask(),
                self.id == old(self).spec_id(),
                self.queue_capacity == old(self).spec_queue_capacity(),
                self.last_trade_price == old(self).spec_last_trade_price(),
                self.asks().len() == av_in.len(),
                forall|j: int|
                    0 <= j < av_in.len() ==> (#[trigger] self.asks()[j]).price == av_in[j].price
                        && (self.asks()[j].queue@.len() > 0 ==> av_in[j].queue@.len() > 0),
                forall|j: int| i <= j < av_in.len() ==> #[trigger] self.asks()[j] == av_in[j],
                forall|j: int, k: int|
                    i <= j < av_in.len() && 0 <= k < (#[trigger] av_in[j]).queue@.len()
                        ==> self.order_store.slots()[(#[trigger] av_in[j].queue@[k]) as int]
                        == st_in.slots()[av_in[j].queue@[k] as int],
                forall|j: int, k: int|
                    0 <= j < bv_in.len() && 0 <= k < (#[trigger] bv_in[j]).queue@.len()
                        ==> self.order_store.slots()[(#[trigger] bv_in[j].queue@[k]) as int]
                        == st_in.slots()[bv_in[j].queue@[k] as int],
                forall|j: int|
                    0 <= j < i ==> queue_qty(
                        self.order_store,
                        (#[trigger] self.asks()[j]).queue@,
                    ) == level_remainder(st_in, av_in, Side::Bid, bound, rq_in as int, j),
                *remaining_quantity <= rq_in,
                *remaining_quantity > 0 ==> rq_in - *remaining_quantity == crossable_qty(
                    st_in,
                    av_in.take(i as int),
                    Side::Bid,
                    bound,
                ),
                *remaining_quantity == 0 ==> crossable_qty(
                    st_in,
                    av_in.take(i as int),
                    Side::Bid,
                    bound,
                ) >= rq_in,
                *remaining_quantity > 0 ==> forall|j: int|
                    0 <= j < i && (#[trigger] av_in[j]).price <= bound ==> self.asks()[
                        j
                    ].queue@.len() == 0,
                forall|id2: u128|
                    #[trigger] self.order_store.has_id(id2) ==> st_in.has_id(id2)
                        && self.order_store.slot_of(id2) == st_in.slot_of(id2),
                forall|id2: u128|
                    #[trigger] st_in.has_id(id2) && (st_in.order_of(id2).side == Side::Bid
                        || st_in.order_of(id2).price > bound) ==> self.order_store.has_id(id2)
                        && self.order_store.order_of(id2) == st_in.order_of(id2),
                fills_qty(order_fills@) == rq_in - *remaining_quantity,
                walk_fills(st_in, av_in, taker_id, Side::Bid, bound, rq_in as int) == order_fills@
                    + walk_fills(
                    st_in,
                    av_in.skip(i as int),
                    taker_id,
                    Side::Bid,
                    bound,
                    *remaining_quantity as int,
                ),
                *remaining_quantity == rq_in ==> order_fills@.len() == 0 && self.asks() == av_in
                    && self.order_store == st_in,
                forall|j: int|
                    0 <= j < order_fills@.len() ==> {
                        let fill = #[trigger] order_fills@[j];
                        &&& fill.order_id == taker_id
                        &&& fill.taker_side == Side::Bid
                        &&& fill.price <= bound
                        &&& fill.price > 0
                        &&& fill.quantity > 0
                    },
                side_qty(self.order_store, self.asks()) == side_qty(st_in, av_in) - (rq_in
                    - *remaining_quantity),
                side_qty(self.order_store, self.bids()) == side_qty(st_in, bv_in),
            decreases self.ask_side_book.levels@.len() - i,
        {
            let ghost self_b = *self;
            let ghost st_b = self.order_store;
            let ghost av_b = self.asks();
            let ghost rq_b = *remaining_quantity;
            let ghost fills_b = order_fills@;
            let level_price = self.ask_side_book.levels[i].price;
            if self.ask_side_book.levels[i].queue.len() == 0 {
                proof {
                    lemma_crossable_take_step(st_in, av_in, Side::Bid, bound, i as int);
                    assert(av_in[i as int].queue@.len() == 0);
                    assert(queue_qty(st_in, av_in[i as int].queue@) == 0);
                    assert(av_in.skip(i as int)[0] == av_in[i as int]);
                    assert(av_in.skip(i as int).skip(1) =~= av_in.skip(i as int + 1));
                    assert(level_fills(
                        st_in,
                        av_in[i as int].queue@,
                        *remaining_quantity as int,
                        taker_id,
                        Side::Bid,
                        av_in[i as int].price,
                    ) =~= Seq::<FillMetaData>::empty());
                    assert(walk_fills(
                        st_in,
                        av_in.skip(i as int),
                        taker_id,
                        Side::Bid,
                        bound,
                        *remaining_quantity as int,
                    ) =~= walk_fills(
                        st_in,
                        av_in.skip(i as int + 1),
                        taker_id,
                        Side::Bid,
                        bound,
                        *remaining_quantity as int,
                    ));
                }
                i += 1;
                continue ;
            }
            let mut level = self.ask_side_book.levels.remove(i);
            let ghost q_b = level.queue@;
            proof {
                assert(av_b[i as int] == av_in[i as int]);
                assert(queue_ok(st_b, q_b, level.price, Side::Ask));
            }
            let popped = Self::process_queue_limit(
                &taker_id,
                level.price,
                Side::Bid,
                remaining_quantity,
                &mut level.queue,
                &mut self.order_store,
                order_fills,
            );
            self.ask_side_book.levels.insert(i, level);
            proof {
                let st_a = self.order_store;
                let rq_a = *remaining_quantity;
                let delta = rq_b - rq_a;
                let q_a = self.asks()[i as int].queue@;
                assert(self.asks() =~= av_b.update(i as int, self.asks()[i as int]));
                assert(self.asks()[i as int].price == level_price);
                assert(queue_consumed(st_b, st_a, q_b, q_a, popped as int, level_price, Side::Ask))
                    by {
                    assert forall|m: int| 0 <= m < q_a.len() implies {
                        let s = (#[trigger] q_a[m]) as int;
                        &&& st_a.slots()[s].id == st_b.slots()[s].id
                        &&& st_a.slots()[s].price == st_b.slots()[s].price
                        &&& st_a.slots()[s].side == st_b.slots()[s].side
                    } by {
                        if m == 0 && order_fills@.len() == fills_b.len() + popped + 1 {
                            let oid = st_b.slots()[q_a[0] as int].id;
                            assert(q_b[popped as int] == q_a[0]);
                            assert(slot_ok(st_b, q_b[popped as int], level_price, Side::Ask));
                            assert(st_b.slot_of(oid) == q_a[0]);
                            assert(!q_b.take(popped as int).contains(q_a[0])) by {
                                if q_b.take(popped as int).contains(q_a[0]) {
                                    let w = choose|w: int|
                                        0 <= w < popped as int && q_b.take(popped as int)[w] == q_a[0];
                                    assert(q_b[w] == q_b[popped as int]);
                                    assert(false);
                                }
                            }
                            assert(st_a.has_id(oid));
                            assert(st_a.slot_of(oid) == q_a[0]);
                            st_a.lemma_live_order(oid);
                            assert(st_a.slots()[q_a[0] as int].id == oid);
                            assert(queue_ok(st_a, q_a, level_price, Side::Ask));
                            assert(slot_ok(st_a, q_a[0], level_price, Side::Ask));
                        } else {
                            assert(st_a.slots()[q_a[m] as int] == st_b.slots()[q_a[m] as int]);
                        }
                    }
                }
                assert forall|id2: u128| #[trigger] st_b.has_id(id2) implies book_contains_slot(
                    if st_b.order_of(id2).side == Side::Ask {
                        av_b
                    } else {
                        bv_in
                    },
                    st_b.order_of(id2).price,
                    st_b.slot_of(id2),
                ) by {
                    assert(self_b.complete());
                    assert(book_contains_slot(
                        self_b.side_levels(st_b.order_of(id2).side),
                        st_b.order_of(id2).price,
                        st_b.slot_of(id2),
                    ));
                }
                lemma_engine_after_consume(
                    st_b,
                    st_a,
                    av_b,
                    self.asks(),
                    bv_in,
                    i as int,
                    popped as int,
                    Side::Ask,
                );
                assert forall|id2: u128| #[trigger] st_a.has_id(id2) implies book_contains_slot(
                    self.side_levels(st_a.order_of(id2).side),
                    st_a.order_of(id2).price,
                    st_a.slot_of(id2),
                ) by {
                    assert(book_contains_slot(
                        if st_a.order_of(id2).side == Side::Ask {
                            self.asks()
                        } else {
                            bv_in
                        },
                        st_a.order_of(id2).price,
                        st_a.slot_of(id2),
                    ));
                }
                // crossable bookkeeping over the entry state
                lemma_queue_qty_congruence(st_b, st_in, q_b);
                lemma_queue_qty_nonneg(st_a, q_a);
                assert(queue_qty(st_a, q_a) == queue_qty(st_b, q_b) - delta);
                lemma_crossable_take_step(st_in, av_in, Side::Bid, bound, i as int);
                if rq_a > 0 {
                    assert(q_a.len() == 0);
                    assert(queue_qty(st_a, q_a) == 0);
                    assert(delta == queue_qty(st_in, q_b));
                }
                // the untouched suffix keeps its records from the entry state
                assert forall|j: int, k: int|
                    i as int + 1 <= j < av_in.len() && 0 <= k < (#[trigger] av_in[j]).queue@.len()
                        implies st_a.slots()[(#[trigger] av_in[j].queue@[k]) as int]
                    == st_in.slots()[av_in[j].queue@[k] as int] by {
                    assert(av_b[j] == av_in[j]);
                    assert(st_a.slots()[av_b[j].queue@[k] as int] == st_b.slots()[av_b[
                        j
                    ].queue@[k] as int]);
                }
                assert forall|j: int, k: int|
                    0 <= j < bv_in.len() && 0 <= k < (#[trigger] bv_in[j]).queue@.len() implies
                    st_a.slots()[(#[trigger] bv_in[j].queue@[k]) as int] == st_in.slots()[
                    bv_in[j].queue@[k] as int] by {
                    assert(st_a.slots()[bv_in[j].queue@[k] as int] == st_b.slots()[bv_in[
                        j
                    ].queue@[k] as int]);
                }
                // live ids trace back to the entry state
                assert forall|id2: u128| #[trigger] st_a.has_id(id2) implies st_in.has_id(id2)
                    && st_a.slot_of(id2) == st_in.slot_of(id2) by {
                    assert(st_b.has_id(id2));
                }
                assert forall|id2: u128|
                    #[trigger] st_in.has_id(id2) && (st_in.order_of(id2).side == Side::Bid
                        || st_in.order_of(id2).price > bound) implies st_a.has_id(id2)
                    && st_a.order_of(id2) == st_in.order_of(id2) by {
                    assert(st_b.has_id(id2) && st_b.order_of(id2) == st_in.order_of(id2));
                    assert(st_b.order_of(id2).side != Side::Ask || st_b.order_of(id2).price
                        != level_price);
                }
                // the fills this level appended
                assert(order_fills@.take(fills_b.len() as int) =~= fills_b) by {
                    assert(order_fills@ == fills_b + order_fills@.skip(fills_b.len() as int));
                    assert forall|w: int| 0 <= w < fills_b.len() implies order_fills@[w]
                        == fills_b[w] by {
                        assert(order_fills@[w] == (fills_b + order_fills@.skip(
                            fills_b.len() as int,
                        ))[w]);
                    }
                }
                lemma_fills_qty_split(order_fills@, fills_b.len() as int);
                assert forall|j: int| 0 <= j < order_fills@.len() implies {
                    let fill = #[trigger] order_fills@[j];
                    &&& fill.order_id == taker_id
                    &&& fill.taker_side == Side::Bid
                    &&& fill.price <= bound
                    &&& fill.price > 0
                    &&& fill.quantity > 0
                } by {
                    if j < fills_b.len() {
                        assert(order_fills@[j] == fills_b[j]);
                    } else {
                        let jj = j - fills_b.len();
                        assert(order_fills@[fills_b.len() + jj] == order_fills@[j]);
                        assert(level_price > 0) by {
                            assert(av_b[i as int].price > 0);
                        }
                    }
                }
                if *remaining_quantity == rq_in {
                    assert(fills_qty(order_fills@) == 0);
                    if order_fills@.len() > 0 {
                        lemma_fills_qty_nonneg(order_fills@.drop_last());
                        assert(order_fills@.last().quantity > 0);
                        assert(false);
                    }
                }
                // the appended fills are the spec-level walk of this level
                let appended = order_fills@.skip(fills_b.len() as int);
                lemma_level_fills_congruence(
                    st_b,
                    st_in,
                    q_b,
                    rq_b as int,
                    taker_id,
                    Side::Bid,
                    level_price,
                );
                assert(appended == level_fills(
                    st_in,
                    q_b,
                    rq_b as int,
                    taker_id,
                    Side::Bid,
                    level_price,
                ));
                assert(av_in.skip(i as int)[0] == av_in[i as int]);
                assert(av_in.skip(i as int).skip(1) =~= av_in.skip(i as int + 1));
                let avail = queue_qty(st_in, q_b);
                if rq_a > 0 {
                    assert(avail == delta);
                } else {
                    assert(queue_qty(st_a, q_a) == queue_qty(st_b, q_b) - delta);
                    assert(avail >= delta);
                }
                assert(walk_fills(st_in, av_in.skip(i as int), taker_id, Side::Bid, bound, rq_b as int)
                    == appended + walk_fills(
                    st_in,
                    av_in.skip(i as int + 1),
                    taker_id,
                    Side::Bid,
                    bound,
                    rq_a as int,
                ));
                assert(order_fills@ =~= fills_b + appended);
                assert((fills_b + appended) + walk_fills(
                    st_in,
                    av_in.skip(i as int + 1),
                    taker_id,
                    Side::Bid,
                    bound,
                    rq_a as int,
                ) =~= fills_b + (appended + walk_fills(
                    st_in,
                    av_in.skip(i as int + 1),
                    taker_id,
                    Side::Bid,
                    bound,
                    rq_a as int,
                )));
                // the level keeps exactly what the taker left of it
                assert(queue_qty(st_a, q_a) == level_remainder(
                    st_in,
                    av_in,
                    Side::Bid,
                    bound,
                    rq_in as int,
                    i as int,
                )) by {
                    lemma_queue_qty_nonneg(st_in, q_b);
                }
                assert forall|j: int| 0 <= j < i + 1 implies queue_qty(
                    self.order_store,
                    (#[trigger] self.asks()[j]).queue@,
                ) == level_remainder(st_in, av_in, Side::Bid, bound, rq_in as int, j) by {
                    if j < i as int {
                        assert(self.asks()[j] == av_b[j]);
                        lemma_queue_qty_congruence(st_a, st_b, av_b[j].queue@);
                    }
                }
            }
            i += 1;
        }
        proof {
            let cq = crossable_qty(st_in, av_in, Side::Bid, bound);
            lemma_crossable_nonneg(st_in, av_in, Side::Bid, bound);
            lemma_crossable_take_monotone(
                st_in,
                av_in,
                Side::Bid,
                bound,
                i as int,
                av_in.len() as int,
            );
            assert(av_in.take(av_in.len() as int) =~= av_in);
            if *remaining_quantity > 0 {
                if (i as int) < av_in.len() {
                    assert(self.asks()[i as int].price > bound);
                    assert forall|j: int|
                        (i as int) <= j < av_in.len() implies !price_crosses(
                        Side::Bid,
                        (#[trigger] av_in[j]).price,
                        bound,
                    ) by {
                        assert(self.asks()[j] == av_in[j]);
                        if j > i as int {
                            assert(av_in[i as int].price < av_in[j].price);
                        }
                    }
                    lemma_crossable_suffix_flat(st_in, av_in, Side::Bid, bound, i as int);
                    assert forall|j: int|
                        0 <= j < av_in.skip(i as int).len() implies !price_crosses(
                        Side::Bid,
                        (#[trigger] av_in.skip(i as int)[j]).price,
                        bound,
                    ) by {
                        assert(av_in.skip(i as int)[j] == av_in[i + j]);
                    }
                    lemma_walk_fills_noncross(
                        st_in,
                        av_in.skip(i as int),
                        taker_id,
                        Side::Bid,
                        bound,
                        *remaining_quantity as int,
                    );
                } else {
                    assert(av_in.skip(i as int) =~= Seq::<PriceLevel>::empty());
                }
                assert(cq == rq_in - *remaining_quantity);
                assert forall|j: int|
                    0 <= j < self.asks().len() && (#[trigger] self.asks()[j]).price
                        <= bound implies self.asks()[j].queue@.len() == 0 by {
                    if j >= i as int {
                        assert(self.asks()[j] == av_in[j]);
                        if j > i as int {
                            assert(av_in[i as int].price < av_in[j].price);
                        }
                    } else {
                        assert(av_in[j].price == self.asks()[j].price);
                    }
                }
            }
            assert(walk_fills(
                st_in,
                av_in.skip(i as int),
                taker_id,
                Side::Bid,
                bound,
                *remaining_quantity as int,
            ) =~= Seq::<FillMetaData>::empty());
            assert(order_fills@ + Seq::<FillMetaData>::empty() =~= order_fills@);
            assert forall|j: int| (i as int) <= j < av_in.len() implies queue_qty(
                self.order_store,
                (#[trigger] self.asks()[j]).queue@,
            ) == level_remainder(st_in, av_in, Side::Bid, bound, rq_in as int, j) by {
                assert(self.asks()[j] == av_in[j]);
                lemma_queue_qty_congruence(self.order_store, st_in, av_in[j].queue@);
                if price_crosses(Side::Bid, av_in[j].price, bound) {
                    assert(*remaining_quantity == 0);
                    lemma_crossable_take_monotone(st_in, av_in, Side::Bid, bound, i as int, j);
                    lemma_queue_qty_nonneg(st_in, av_in[j].queue@);
                }
            }
        }
    }


    /// Matches a selling taker against the bid side: consumes levels from
    /// the highest price downward while their price is within `bound` and
    /// quantity remains, appending one fill per match. Exactly the
    /// crossable quantity is consumed, capped by the taker's remainder;
    /// the ask side, the bids below the bound, and the cached tops are
    /// untouched.
    #[verifier::rlimit(100)]
    fn walk_bids(
        &mut self,
        taker_id: u128,
        bound: u64,
        remaining_quantity: &mut u64,
        order_fills: &mut Vec<FillMetaData>,
    )
        requires
            old(self).books_ok(),
            old(order_fills)@.len() == 0,
        ensures
            final(self).books_ok(),
            final(self).same_config(*old(self)),
            final(self).spec_last_trade_price() == old(self).spec_last_trade_price(),
            final(self).spec_min_ask() == old(self).spec_min_ask(),
            final(self).spec_max_bid() == old(self).spec_max_bid(),
            final(self).asks() == old(self).asks(),
            *final(remaining_quantity) <= *old(remaining_quantity),
            *final(remaining_quantity) == ({
                let cq = crossable_qty(old(self).store(), old(self).bids(), Side::Ask, bound);
                if cq >= *old(remaining_quantity) {
                    0u64
                } else {
                    (*old(remaining_quantity) - cq) as u64
                }
            }),
            *final(remaining_quantity) > 0 ==> forall|j: int|
                0 <= j < final(self).bids().len() && (#[trigger] final(self).bids()[j]).price
                    >= bound ==> final(self).bids()[j].queue@.len() == 0,
            final(self).bids().len() == old(self).bids().len(),
            forall|j: int|
                0 <= j < old(self).bids().len() ==> (#[trigger] final(self).bids()[j]).price == old(self).bids()[j].price && (final(self).bids()[j].queue@.len() > 0 ==> old(self).bids()[
                    j
                ].queue@.len() > 0),
            forall|j: int|
                0 <= j < old(self).bids().len() ==> queue_qty(
                    final(self).store(),
                    (#[trigger] final(self).bids()[j]).queue@,
                ) == level_remainder(
                    old(self).store(),
                    rev_levels(old(self).bids()),
                    Side::Ask,
                    bound,
                    *old(remaining_quantity) as int,
                    old(self).bids().len() - 1 - j,
                ),
            forall|id2: u128|
                #[trigger] final(self).store().has_id(id2) ==> old(self).store().has_id(id2)
                    && final(self).store().slot_of(id2) == old(self).store().slot_of(id2),
            forall|id2: u128|
                #[trigger] old(self).store().has_id(id2) && (old(self).store().order_of(id2).side
                    == Side::Ask || old(self).store().order_of(id2).price < bound) ==> final(self).store().has_id(id2) && final(self).store().order_of(id2) == old(self).store().order_of(id2),
            fills_qty(final(order_fills)@) == *old(remaining_quantity) - *final(remaining_quantity),
            final(order_fills)@ == walk_fills(
                old(self).store(),
                rev_levels(old(self).bids()),
                taker_id,
                Side::Ask,
                bound,
                *old(remaining_quantity) as int,
            ),
            *final(remaining_quantity) == *old(remaining_quantity) ==> final(order_fills)@.len()
                == 0 && final(self).bids() == old(self).bids() && final(self).store() == old(self).store(),
            forall|j: int|
                0 <= j < final(order_fills)@.len() ==> {
                    let fill = #[trigger] final(order_fills)@[j];
                    &&& fill.order_id == taker_id
                    &&& fill.taker_side == Side::Ask
                    &&& fill.price >= bound
                    &&& fill.price > 0
                    &&& fill.quantity > 0
                },
            side_qty(final(self).store(), final(self).bids()) == side_qty(
                old(self).store(),
                old(self).bids(),
            ) - (*old(remaining_quantity) - *final(remaining_quantity)),
            side_qty(final(self).store(), final(self).asks()) == side_qty(
                old(self).store(),
                old(self).asks(),
            ),
    {
        let ghost st_in = old(self).store();
        let ghost bv_in = old(self).bids();
        let ghost av_in = old(self).asks();
        let ghost rq_in = *remaining_quantity;
        let mut i: usize = self.bid_side_book.levels.len();
        proof {
            assert(bv_in.skip(bv_in.len() as int) =~= Seq::<PriceLevel>::empty());
            assert(rev_levels(bv_in).skip(0) =~= rev_levels(bv_in));
            assert(Seq::<FillMetaData>::empty() + walk_fills(
                st_in,
                rev_levels(bv_in),
                taker_id,
                Side::Ask,
                bound,
                rq_in as int,
            ) =~= walk_fills(st_in, rev_levels(bv_in), taker_id, Side::Ask, bound, rq_in as int));
        }
        while i > 0 && *remaining_quantity > 0 && self.bid_side_book.levels[i - 1].price >= bound
            invariant
                i <= self.bid_side_book.levels@.len(),
                self.order_store.wf(),
                side_ok(self.order_store, self.bids(), Side::Bid),
                side_ok(self.order_store, self.asks(), Side::Ask),
                self.complete(),
                self.ask_side_book.levels@ == av_in,
                self.min_ask == old(self).spec_min_ask(),
                self.max_bid == old(self).spec_max_bid(),
                self.id == old(self).spec_id(),
                self.queue_capacity == old(self).spec_queue_capacity(),
                self.last_trade_price == old(self).spec_last_trade_price(),
                self.bids().len() == bv_in.len(),
                forall|j: int|
                    0 <= j < bv_in.len() ==> (#[trigger] self.bids()[j]).price == bv_in[j].price
                        && (self.bids()[j].queue@.len() > 0 ==> bv_in[j].queue@.len() > 0),
                forall|j: int| 0 <= j < i ==> #[trigger] self.bids()[j] == bv_in[j],
                forall|j: int, k: int|
                    0 <= j < i && 0 <= k < (#[trigger] bv_in[j]).queue@.len()
                        ==> self.order_store.slots()[(#[trigger] bv_in[j].queue@[k]) as int]
                        == st_in.slots()[bv_in[j].queue@[k] as int],
                forall|j: int, k: int|
                    0 <= j < av_in.len() && 0 <= k < (#[trigger] av_in[j]).queue@.len()
                        ==> self.order_store.slots()[(#[trigger] av_in[j].queue@[k]) as int]
                        == st_in.slots()[av_in[j].queue@[k] as int],
                forall|j: int|
                    i <= j < bv_in.len() ==> queue_qty(
                        self.order_store,
                        (#[trigger] self.bids()[j]).queue@,
                    ) == level_remainder(
                        st_in,
                        rev_levels(bv_in),
                        Side::Ask,
                        bound,
                        rq_in as int,
                        bv_in.len() - 1 - j,
                    ),
                *remaining_quantity <= rq_in,
                *remaining_quantity > 0 ==> rq_in - *remaining_quantity == crossable_qty(
                    st_in,
                    bv_in.skip(i as int),
                    Side::Ask,
                    bound,
                ),
                *remaining_quantity == 0 ==> crossable_qty(
                    st_in,
                    bv_in.skip(i as int),
                    Side::Ask,
                    bound,
                ) >= rq_in,
                *remaining_quantity > 0 ==> forall|j: int|
                    i <= j < bv_in.len() && (#[trigger] bv_in[j]).price >= bound ==> self.bids()[
                        j
                    ].queue@.len() == 0,
                forall|id2: u128|
                    #[trigger] self.order_store.has_id(id2) ==> st_in.has_id(id2)
                        && self.order_store.slot_of(id2) == st_in.slot_of(id2),
                forall|id2: u128|
                    #[trigger] st_in.has_id(id2) && (st_in.order_of(id2).side == Side::Ask
                        || st_in.order_of(id2).price < bound) ==> self.order_store.has_id(id2)
                        && self.order_store.order_of(id2) == st_in.order_of(id2),
                fills_qty(order_fills@) == rq_in - *remaining_quantity,
                walk_fills(st_in, rev_levels(bv_in), taker_id, Side::Ask, bound, rq_in as int)
                    == order_fills@ + walk_fills(
                    st_in,
                    rev_levels(bv_in).skip(bv_in.len() - i),
                    taker_id,
                    Side::Ask,
                    bound,
                    *remaining_quantity as int,
                ),
                *remaining_quantity == rq_in ==> order_fills@.len() == 0 && self.bids() == bv_in
                    && self.order_store == st_in,
                forall|j: int|
                    0 <= j < order_fills@.len() ==> {
                        let fill = #[trigger] order_fills@[j];
                        &&& fill.order_id == taker_id
                        &&& fill.taker_side == Side::Ask
                        &&& fill.price >= bound
                        &&& fill.price > 0
                        &&& fill.quantity > 0
                    },
                side_qty(self.order_store, self.bids()) == side_qty(st_in, bv_in) - (rq_in
                    - *remaining_quantity),
                side_qty(self.order_store, self.asks()) == side_qty(st_in, av_in),
            decreases i,
        {
            let ghost self_b = *self;
            let ghost st_b = self.order_store;
            let ghost bv_b = self.bids();
            let ghost rq_b = *remaining_quantity;
            let ghost fills_b = order_fills@;
            let li = i - 1;
            let level_price = self.bid_side_book.levels[li].price;
            if self.bid_side_book.levels[li].queue.len() == 0 {
                proof {
                    lemma_crossable_skip_step(st_in, bv_in, Side::Ask, bound, li as int);
                    assert(bv_in[li as int].queue@.len() == 0);
                    assert(queue_qty(st_in, bv_in[li as int].queue@) == 0);
                    let c = bv_in.len() - i;
                    let rv = rev_levels(bv_in);
                    assert(rv.skip(c)[0] == rv[c]);
                    assert(rv[c] == bv_in[li as int]);
                    assert(rv.skip(c).skip(1) =~= rv.skip(c + 1));
                    assert(level_fills(
                        st_in,
                        bv_in[li as int].queue@,
                        *remaining_quantity as int,
                        taker_id,
                        Side::Ask,
                        bv_in[li as int].price,
                    ) =~= Seq::<FillMetaData>::empty());
                    assert(walk_fills(st_in, rv.skip(c), taker_id, Side::Ask, bound, *remaining_quantity as int)
                        =~= walk_fills(st_in, rv.skip(c + 1), taker_id, Side::Ask, bound, *remaining_quantity as int));
                }
                i -= 1;
                continue ;
            }
            let mut level = self.bid_side_book.levels.remove(li);
            let ghost q_b = level.queue@;
            proof {
                assert(bv_b[li as int] == bv_in[li as int]);
                assert(queue_ok(st_b, q_b, level.price, Side::Bid));
            }
            let popped = Self::process_queue_limit(
                &taker_id,
                level.price,
                Side::Ask,
                remaining_quantity,
                &mut level.queue,
                &mut self.order_store,
                order_fills,
            );
            self.bid_side_book.levels.insert(li, level);
            proof {
                let st_a = self.order_store;
                let rq_a = *remaining_quantity;
                let delta = rq_b - rq_a;
                let q_a = self.bids()[li as int].queue@;
                assert(self.bids() =~= bv_b.update(li as int, self.bids()[li as int]));
                assert(self.bids()[li as int].price == level_price);
                assert(queue_consumed(st_b, st_a, q_b, q_a, popped as int, level_price, Side::Bid))
                    by {
                    assert forall|m: int| 0 <= m < q_a.len() implies {
                        let s = (#[trigger] q_a[m]) as int;
                        &&& st_a.slots()[s].id == st_b.slots()[s].id
                        &&& st_a.slots()[s].price == st_b.slots()[s].price
                        &&& st_a.slots()[s].side == st_b.slots()[s].side
                    } by {
                        if m == 0 && order_fills@.len() == fills_b.len() + popped + 1 {
                            let oid = st_b.slots()[q_a[0] as int].id;
                            assert(q_b[popped as int] == q_a[0]);
                            assert(slot_ok(st_b, q_b[popped as int], level_price, Side::Bid));
                            assert(st_b.slot_of(oid) == q_a[0]);
                            assert(!q_b.take(popped as int).contains(q_a[0])) by {
                                if q_b.take(popped as int).contains(q_a[0]) {
                                    let w = choose|w: int|
                                        0 <= w < popped as int && q_b.take(popped as int)[w] == q_a[0];
                                    assert(q_b[w] == q_b[popped as int]);
                                    assert(false);
                                }
                            }
                            assert(st_a.has_id(oid));
                            assert(st_a.slot_of(oid) == q_a[0]);
                            st_a.lemma_live_order(oid);
                            assert(st_a.slots()[q_a[0] as int].id == oid);
                            assert(queue_ok(st_a, q_a, level_price, Side::Bid));
                            assert(slot_ok(st_a, q_a[0], level_price, Side::Bid));
                        } else {
                            assert(st_a.slots()[q_a[m] as int] == st_b.slots()[q_a[m] as int]);
                        }
                    }
                }
                assert forall|id2: u128| #[trigger] st_b.has_id(id2) implies book_contains_slot(
                    if st_b.order_of(id2).side == Side::Bid {
                        bv_b
                    } else {
                        av_in
                    },
                    st_b.order_of(id2).price,
                    st_b.slot_of(id2),
                ) by {
                    assert(self_b.complete());
                    assert(book_contains_slot(
                        self_b.side_levels(st_b.order_of(id2).side),
                        st_b.order_of(id2).price,
                        st_b.slot_of(id2),
                    ));
                }
                lemma_engine_after_consume(
                    st_b,
                    st_a,
                    bv_b,
                    self.bids(),
                    av_in,
                    li as int,
                    popped as int,
                    Side::Bid,
                );
                assert forall|id2: u128| #[trigger] st_a.has_id(id2) implies book_contains_slot(
                    self.side_levels(st_a.order_of(id2).side),
                    st_a.order_of(id2).price,
                    st_a.slot_of(id2),
                ) by {
                    assert(book_contains_slot(
                        if st_a.order_of(id2).side == Side::Bid {
                            self.bids()
                        } else {
                            av_in
                        },
                        st_a.order_of(id2).price,
                        st_a.slot_of(id2),
                    ));
                }
                // crossable bookkeeping over the entry state
                lemma_queue_qty_congruence(st_b, st_in, q_b);
                lemma_queue_qty_nonneg(st_a, q_a);
                assert(queue_qty(st_a, q_a) == queue_qty(st_b, q_b) - delta);
                lemma_crossable_skip_step(st_in, bv_in, Side::Ask, bound, li as int);
                if rq_a > 0 {
                    assert(q_a.len() == 0);
                    assert(queue_qty(st_a, q_a) == 0);
                    assert(delta == queue_qty(st_in, q_b));
                }
                // the untouched suffix keeps its records from the entry state
                assert forall|j: int, k: int|
                    0 <= j < li as int && 0 <= k < (#[trigger] bv_in[j]).queue@.len()
                        implies st_a.slots()[(#[trigger] bv_in[j].queue@[k]) as int]
                    == st_in.slots()[bv_in[j].queue@[k] as int] by {
                    assert(bv_b[j] == bv_in[j]);
                    assert(st_a.slots()[bv_b[j].queue@[k] as int] == st_b.slots()[bv_b[
                        j
                    ].queue@[k] as int]);
                }
                assert forall|j: int, k: int|
                    0 <= j < av_in.len() && 0 <= k < (#[trigger] av_in[j]).queue@.len() implies
                    st_a.slots()[(#[trigger] av_in[j].queue@[k]) as int] == st_in.slots()[
                    av_in[j].queue@[k] as int] by {
                    assert(st_a.slots()[av_in[j].queue@[k] as int] == st_b.slots()[av_in[
                        j
                    ].queue@[k] as int]);
                }
                // live ids trace back to the entry state
                assert forall|id2: u128| #[trigger] st_a.has_id(id2) implies st_in.has_id(id2)
                    && st_a.slot_of(id2) == st_in.slot_of(id2) by {
                    assert(st_b.has_id(id2));
                }
                assert forall|id2: u128|
                    #[trigger] st_in.has_id(id2) && (st_in.order_of(id2).side == Side::Ask
                        || st_in.order_of(id2).price < bound) implies st_a.has_id(id2)
                    && st_a.order_of(id2) == st_in.order_of(id2) by {
                    assert(st_b.has_id(id2) && st_b.order_of(id2) == st_in.order_of(id2));
                    assert(st_b.order_of(id2).side != Side::Bid || st_b.order_of(id2).price
                        != level_price);
                }
                // the fills this level appended
                assert(order_fills@.take(fills_b.len() as int) =~= fills_b) by {
                    assert(order_fills@ == fills_b + order_fills@.skip(fills_b.len() as int));
                    assert forall|w: int| 0 <= w < fills_b.len() implies order_fills@[w]
                        == fills_b[w] by {
                        assert(order_fills@[w] == (fills_b + order_fills@.skip(
                            fills_b.len() as int,
                        ))[w]);
                    }
                }
                lemma_fills_qty_split(order_fills@, fills_b.len() as int);
                assert forall|j: int| 0 <= j < order_fills@.len() implies {
                    let fill = #[trigger] order_fills@[j];
                    &&& fill.order_id == taker_id
                    &&& fill.taker_side == Side::Ask
                    &&& fill.price >= bound
                    &&& fill.price > 0
                    &&& fill.quantity > 0
                } by {
                    if j < fills_b.len() {
                        assert(order_fills@[j] == fills_b[j]);
                    } else {
                        let jj = j - fills_b.len();
                        assert(order_fills@[fills_b.len() + jj] == order_fills@[j]);
                        assert(level_price > 0) by {
                            assert(bv_b[li as int].price > 0);
                        }
                    }
                }
                if *remaining_quantity == rq_in {
                    assert(fills_qty(order_fills@) == 0);
                    if order_fills@.len() > 0 {
                        lemma_fills_qty_nonneg(order_fills@.drop_last());
                        assert(order_fills@.last().quantity > 0);
                        assert(false);
                    }
                }
                // the appended fills are the spec-level walk of this level
                let c = bv_in.len() - i;
                let rv = rev_levels(bv_in);
                let appended = order_fills@.skip(fills_b.len() as int);
                lemma_level_fills_congruence(
                    st_b,
                    st_in,
                    q_b,
                    rq_b as int,
                    taker_id,
                    Side::Ask,
                    level_price,
                );
                assert(appended == level_fills(
                    st_in,
                    q_b,
                    rq_b as int,
                    taker_id,
                    Side::Ask,
                    level_price,
                ));
                assert(rv.skip(c)[0] == rv[c]);
                assert(rv[c] == bv_in[li as int]);
                assert(rv.skip(c).skip(1) =~= rv.skip(c + 1));
                let avail = queue_qty(st_in, q_b);
                if rq_a > 0 {
                    assert(avail == delta);
                } else {
                    assert(queue_qty(st_a, q_a) == queue_qty(st_b, q_b) - delta);
                    assert(avail >= delta);
                }
                assert(walk_fills(st_in, rv.skip(c), taker_id, Side::Ask, bound, rq_b as int)
                    == appended + walk_fills(st_in, rv.skip(c + 1), taker_id, Side::Ask, bound, rq_a as int));
                assert(order_fills@ =~= fills_b + appended);
                assert((fills_b + appended) + walk_fills(
                    st_in,
                    rv.skip(c + 1),
                    taker_id,
                    Side::Ask,
                    bound,
                    rq_a as int,
                ) =~= fills_b + (appended + walk_fills(
                    st_in,
                    rv.skip(c + 1),
                    taker_id,
                    Side::Ask,
                    bound,
                    rq_a as int,
                )));
                // the level keeps exactly what the taker left of it
                lemma_crossable_rev_take(st_in, bv_in, Side::Ask, bound, i as int);
                assert(rv.take(c).len() == c);
                assert(queue_qty(st_a, q_a) == level_remainder(
                    st_in,
                    rv,
                    Side::Ask,
                    bound,
                    rq_in as int,
                    c,
                )) by {
                    lemma_queue_qty_nonneg(st_in, q_b);
                    assert(rv[c].queue@ == q_b);
                }
                assert forall|j: int| li as int <= j < bv_in.len() implies queue_qty(
                    self.order_store,
                    (#[trigger] self.bids()[j]).queue@,
                ) == level_remainder(st_in, rv, Side::Ask, bound, rq_in as int, bv_in.len() - 1
                    - j) by {
                    if j > li as int {
                        assert(self.bids()[j] == bv_b[j]);
                        lemma_queue_qty_congruence(st_a, st_b, bv_b[j].queue@);
                    }
                }
            }
            i -= 1;
        }
        proof {
            let cq = crossable_qty(st_in, bv_in, Side::Ask, bound);
            lemma_crossable_nonneg(st_in, bv_in, Side::Ask, bound);
            lemma_crossable_skip_monotone(st_in, bv_in, Side::Ask, bound, 0, i as int);
            assert(bv_in.skip(0) =~= bv_in);
            if *remaining_quantity > 0 {
                if i > 0 {
                    assert(self.bids()[i - 1].price < bound);
                    assert forall|j: int| 0 <= j < i implies !price_crosses(
                        Side::Ask,
                        (#[trigger] bv_in[j]).price,
                        bound,
                    ) by {
                        assert(self.bids()[j] == bv_in[j]);
                        if j < i - 1 {
                            assert(bv_in[j].price < bv_in[i - 1].price);
                        }
                    }
                    lemma_crossable_prefix_flat(st_in, bv_in, Side::Ask, bound, i as int);
                    assert forall|j: int|
                        0 <= j < rev_levels(bv_in).skip(bv_in.len() - i).len() implies
                        !price_crosses(
                        Side::Ask,
                        (#[trigger] rev_levels(bv_in).skip(bv_in.len() - i)[j]).price,
                        bound,
                    ) by {
                        let c = bv_in.len() - i;
                        assert(rev_levels(bv_in).skip(c)[j] == rev_levels(bv_in)[c + j]);
                        assert(rev_levels(bv_in)[c + j] == bv_in[bv_in.len() - 1 - (c + j)]);
                    }
                    lemma_walk_fills_noncross(
                        st_in,
                        rev_levels(bv_in).skip(bv_in.len() - i),
                        taker_id,
                        Side::Ask,
                        bound,
                        *remaining_quantity as int,
                    );
                } else {
                    assert(rev_levels(bv_in).skip(bv_in.len() - i)
                        =~= Seq::<PriceLevel>::empty());
                }
                assert(cq == rq_in - *remaining_quantity);
                assert forall|j: int|
                    0 <= j < self.bids().len() && (#[trigger] self.bids()[j]).price
                        >= bound implies self.bids()[j].queue@.len() == 0 by {
                    if j < i as int {
                        assert(self.bids()[j] == bv_in[j]);
                        if j < i - 1 {
                            assert(bv_in[j].price < bv_in[i - 1].price);
                        }
                    } else {
                        assert(bv_in[j].price == self.bids()[j].price);
                    }
                }
            }
            assert(walk_fills(
                st_in,
                rev_levels(bv_in).skip(bv_in.len() - i),
                taker_id,
                Side::Ask,
                bound,
                *remaining_quantity as int,
            ) =~= Seq::<FillMetaData>::empty());
            assert(order_fills@ + Seq::<FillMetaData>::empty() =~= order_fills@);
            assert forall|j: int| 0 <= j < i as int implies queue_qty(
                self.order_store,
                (#[trigger] self.bids()[j]).queue@,
            ) == level_remainder(st_in, rev_levels(bv_in), Side::Ask, bound, rq_in as int, bv_in.len() - 1 - j) by {
                let rv = rev_levels(bv_in);
                let c = bv_in.len() - 1 - j;
                assert(self.bids()[j] == bv_in[j]);
                assert(rv[c] == bv_in[j]);
                lemma_queue_qty_congruence(self.order_store, st_in, bv_in[j].queue@);
                if price_crosses(Side::Ask, bv_in[j].price, bound) {
                    assert(*remaining_quantity == 0);
                    lemma_crossable_rev_take(st_in, bv_in, Side::Ask, bound, i as int);
                    lemma_crossable_rev_take(st_in, bv_in, Side::Ask, bound, j + 1);
                    lemma_crossable_skip_monotone(st_in, bv_in, Side::Ask, bound, j + 1, i as int);
                    assert(rv.take(c).len() == c);
                    lemma_queue_qty_nonneg(st_in, bv_in[j].queue@);
                }
            }
        }
    }



    /// Rests the taker's unmatched remainder, if any, on the bid side and
    /// shapes the placement result: untouched quantity means the order was
    /// created, a partial remainder rests reduced, nothing left means a
    /// full fill.
    pub fn process_bid_fills(
        &mut self,
        order: LimitOrder,
        order_fills: Vec<FillMetaData>,
        remaining_quantity: u64,
    ) -> (r: FillResult)
        requires
            old(self).books_ok(),
            order.side == Side::Bid,
            order.price > 0,
            order.quantity > 0,
            remaining_quantity <= order.quantity,
            remaining_quantity > 0 ==> !old(self).store().has_id(order.id),
        ensures
            final(self).books_ok(),
            final(self).same_config(*old(self)),
            final(self).spec_last_trade_price() == old(self).spec_last_trade_price(),
            final(self).spec_max_bid() == old(self).spec_max_bid(),
            final(self).spec_min_ask() == old(self).spec_min_ask(),
            final(self).asks() == old(self).asks(),
            if remaining_quantity == order.quantity {
                r == FillResult::Created(order)
            } else if remaining_quantity > 0 {
                r == FillResult::PartiallyFilled(
                    LimitOrder { quantity: remaining_quantity, ..order },
                    order_fills,
                )
            } else {
                r == FillResult::Filled(order_fills)
            },
            remaining_quantity == 0 ==> *final(self) == *old(self),
            remaining_quantity > 0 ==> {
                &&& final(self).store().has_id(order.id)
                &&& final(self).store().order_of(order.id) == (LimitOrder {
                    quantity: remaining_quantity,
                    ..order
                })
                &&& forall|id2: u128|
                    #[trigger] old(self).store().has_id(id2) ==> id2 != order.id && final(self).store().has_id(id2) && final(self).store().order_of(id2) == old(self).store().order_of(id2)
                &&& forall|id2: u128|
                    #[trigger] final(self).store().has_id(id2) ==> id2 == order.id || old(self).store().has_id(id2)
                &&& queue_at(final(self).bids(), order.price) == queue_at(
                    old(self).bids(),
                    order.price,
                ).push(final(self).store().slot_of(order.id))
                &&& has_level(final(self).bids(), order.price)
                &&& forall|p: u64|
                    #![trigger queue_at(final(self).bids(), p)]
                    #![trigger queue_at(old(self).bids(), p)]
                    p != order.price ==> queue_at(final(self).bids(), p) == queue_at(
                        old(self).bids(),
                        p,
                    ) && (has_level(final(self).bids(), p) <==> has_level(old(self).bids(), p))
                &&& forall|i: int|
                    0 <= i < final(self).bids().len() && (#[trigger] final(self).bids()[i]).queue@.len() > 0 ==> final(self).bids()[i].price == order.price || exists|j: int|
                        0 <= j < old(self).bids().len() && (#[trigger] old(self).bids()[j]).price == final(self).bids()[i].price && old(self).bids()[j].queue@.len() > 0
                &&& side_qty(final(self).store(), final(self).bids()) == side_qty(
                    old(self).store(),
                    old(self).bids(),
                ) + remaining_quantity
                &&& side_qty(final(self).store(), final(self).asks()) == side_qty(
                    old(self).store(),
                    old(self).asks(),
                )
            },
    {
        if remaining_quantity == order.quantity {
            let _ = self.rest_order(order);
            FillResult::Created(order)
        } else if remaining_quantity > 0 {
            let mut resident = order;
            resident.update_order_quantity(remaining_quantity);
            let _ = self.rest_order(resident);
            FillResult::PartiallyFilled(resident, order_fills)
        } else {
            FillResult::Filled(order_fills)
        }
    }

    /// The mirror of `process_bid_fills` for the ask side.
    pub fn process_ask_fills(
        &mut self,
        order: LimitOrder,
        order_fills: Vec<FillMetaData>,
        remaining_quantity: u64,
    ) -> (r: FillResult)
        requires
            old(self).books_ok(),
            order.side == Side::Ask,
            order.price > 0,
            order.quantity > 0,
            remaining_quantity <= order.quantity,
            remaining_quantity > 0 ==> !old(self).store().has_id(order.id),
        ensures
            final(self).books_ok(),
            final(self).same_config(*old(self)),
            final(self).spec_last_trade_price() == old(self).spec_last_trade_price(),
            final(self).spec_max_bid() == old(self).spec_max_bid(),
            final(self).spec_min_ask() == old(self).spec_min_ask(),
            final(self).bids() == old(self).bids(),
            if remaining_quantity == order.quantity {
                r == FillResult::Created(order)
            } else if remaining_quantity > 0 {
                r == FillResult::PartiallyFilled(
                    LimitOrder { quantity: remaining_quantity, ..order },
                    order_fills,
                )
            } else {
                r == FillResult::Filled(order_fills)
            },
            remaining_quantity == 0 ==> *final(self) == *old(self),
            remaining_quantity > 0 ==> {
                &&& final(self).store().has_id(order.id)
                &&& final(self).store().order_of(order.id) == (LimitOrder {
                    quantity: remaining_quantity,
                    ..order
                })
                &&& forall|id2: u128|
                    #[trigger] old(self).store().has_id(id2) ==> id2 != order.id && final(self).store().has_id(id2) && final(self).store().order_of(id2) == old(self).store().order_of(id2)
                &&& forall|id2: u128|
                    #[trigger] final(self).store().has_id(id2) ==> id2 == order.id || old(self).store().has_id(id2)
                &&& queue_at(final(self).asks(), order.price) == queue_at(
                    old(self).asks(),
                    order.price,
                ).push(final(self).store().slot_of(order.id))
                &&& has_level(final(self).asks(), order.price)
                &&& forall|p: u64|
                    #![trigger queue_at(final(self).asks(), p)]
                    #![trigger queue_at(old(self).asks(), p)]
                    p != order.price ==> queue_at(final(self).asks(), p) == queue_at(
                        old(self).asks(),
                        p,
                    ) && (has_level(final(self).asks(), p) <==> has_level(old(self).asks(), p))
                &&& forall|i: int|
                    0 <= i < final(self).asks().len() && (#[trigger] final(self).asks()[i]).queue@.len() > 0 ==> final(self).asks()[i].price == order.price || exists|j: int|
                        0 <= j < old(self).asks().len() && (#[trigger] old(self).asks()[j]).price == final(self).asks()[i].price && old(self).asks()[j].queue@.len() > 0
                &&& side_qty(final(self).store(), final(self).asks()) == side_qty(
                    old(self).store(),
                    old(self).asks(),
                ) + remaining_quantity
                &&& side_qty(final(self).store(), final(self).bids()) == side_qty(
                    old(self).store(),
                    old(self).bids(),
                )
            },
    {
        if remaining_quantity == order.quantity {
            let _ = self.rest_order(order);
            FillResult::Created(order)
        } else if remaining_quantity > 0 {
            let mut resident = order;
            resident.update_order_quantity(remaining_quantity);
            let _ = self.rest_order(resident);
            FillResult::PartiallyFilled(resident, order_fills)
        } else {
            FillResult::Filled(order_fills)
        }
    }


    /// A non-empty well-formed queue holds positive quantity.
    pub proof fn lemma_queue_qty_pos_at(store: Store, q: Seq<usize>, price: u64, side: Side)
        requires
            queue_ok(store, q, price, side),
            q.len() > 0,
        ensures
            queue_qty(store, q) > 0,
    {
        lemma_queue_qty_first(store, q);
        lemma_queue_qty_nonneg(store, q.skip(1));
        assert(slot_ok(store, q[0], price, side));
    }

    /// A non-empty level that crosses the taker makes the crossable total
    /// positive.
    pub proof fn lemma_crossable_pos(
        store: Store,
        levels: Seq<PriceLevel>,
        taker_side: Side,
        bound: u64,
        i: int,
        maker_side: Side,
    )
        requires
            side_ok(store, levels, maker_side),
            0 <= i < levels.len(),
            levels[i].queue@.len() > 0,
            price_crosses(taker_side, levels[i].price, bound),
        ensures
            crossable_qty(store, levels, taker_side, bound) > 0,
    {
        assert(queue_ok(store, levels[i].queue@, levels[i].price, maker_side));
        Self::lemma_queue_qty_pos_at(store, levels[i].queue@, levels[i].price, maker_side);
        lemma_crossable_take_step(store, levels, taker_side, bound, i);
        lemma_crossable_nonneg(store, levels.take(i), taker_side, bound);
        lemma_crossable_take_monotone(store, levels, taker_side, bound, i + 1, levels.len() as int);
        assert(levels.take(levels.len() as int) =~= levels);
    }

    /// Places a limit bid. It never fails: the order crosses the resting
    /// asks at or below its price, lowest first, and any remainder rests
    /// at its price. Exactly the crossable ask quantity is consumed,
    /// capped by the order's quantity; a full fill records the last fill's
    /// price as the last trade price; the cached tops are recomputed and
    /// the book does not cross afterwards.
    #[verifier::rlimit(100)]
    pub fn limit_bid_order(&mut self, order: LimitOrder) -> (r: FillResult)
        requires
            old(self).books_ok(),
            old(self).non_crossing(),
            limit_order_wf(order),
            order.side == Side::Bid,
            !old(self).store().has_id(order.id),
        ensures
            final(self).wf(),
            final(self).same_config(*old(self)),
            ({
                let cq = crossable_qty(old(self).store(), old(self).asks(), Side::Bid, order.price);
                let rem: u64 = if cq >= order.quantity {
                    0u64
                } else {
                    (order.quantity - cq) as u64
                };
                &&& (rem == order.quantity ==> r == FillResult::Created(order))
                &&& (0 < rem < order.quantity ==> (r matches FillResult::PartiallyFilled(res, fills)
                    && res == (LimitOrder { quantity: rem, ..order }) && fills_qty(fills@)
                    == order.quantity - rem))
                &&& (rem == 0 ==> (r matches FillResult::Filled(fills) && fills_qty(fills@)
                    == order.quantity && fills@.len() > 0 && final(self).spec_last_trade_price()
                    == fills@.last().price))
                &&& (rem > 0 ==> final(self).store().has_id(order.id) && final(self).store().order_of(order.id) == (LimitOrder { quantity: rem, ..order })
                    && final(self).spec_last_trade_price() == old(self).spec_last_trade_price())
                &&& (rem == 0 ==> !final(self).store().has_id(order.id))
                &&& (rem == order.quantity ==> final(self).asks() == old(self).asks())
                &&& (rem == 0 ==> final(self).bids() == old(self).bids())
                &&& (rem > 0 ==> queue_at(final(self).bids(), order.price) == queue_at(
                    old(self).bids(),
                    order.price,
                ).push(final(self).store().slot_of(order.id)) && has_level(
                    final(self).bids(),
                    order.price,
                ) && (forall|p: u64|
                    #![trigger queue_at(final(self).bids(), p)]
                    #![trigger queue_at(old(self).bids(), p)]
                    p != order.price ==> queue_at(final(self).bids(), p) == queue_at(
                        old(self).bids(),
                        p,
                    ) && (has_level(final(self).bids(), p) <==> has_level(old(self).bids(), p))))
                &&& final(self).total_resting() == old(self).total_resting() + 2 * rem
                    - order.quantity
            }),
            (r matches FillResult::Filled(fills) ==> forall|j: int|
                0 <= j < fills@.len() ==> {
                    let fill = #[trigger] fills@[j];
                    &&& fill.order_id == order.id
                    &&& fill.taker_side == Side::Bid
                    &&& 0 < fill.price <= order.price
                    &&& fill.quantity > 0
                }),
            (r matches FillResult::PartiallyFilled(res, fills) ==> forall|j: int|
                0 <= j < fills@.len() ==> {
                    let fill = #[trigger] fills@[j];
                    &&& fill.order_id == order.id
                    &&& fill.taker_side == Side::Bid
                    &&& 0 < fill.price <= order.price
                    &&& fill.quantity > 0
                }),
            (r matches FillResult::Filled(fills) ==> fills@ == walk_fills(
                old(self).store(),
                old(self).asks(),
                order.id,
                Side::Bid,
                order.price,
                order.quantity as int,
            ) && final(self).asks().len() == old(self).asks().len() && (forall|j: int|
                0 <= j < old(self).asks().len() ==> queue_qty(
                    final(self).store(),
                    (#[trigger] final(self).asks()[j]).queue@,
                ) == level_remainder(
                    old(self).store(),
                    old(self).asks(),
                    Side::Bid,
                    order.price,
                    order.quantity as int,
                    j,
                ))),
            (r matches FillResult::PartiallyFilled(res2, fills2) ==> fills2@ == walk_fills(
                old(self).store(),
                old(self).asks(),
                order.id,
                Side::Bid,
                order.price,
                order.quantity as int,
            )),
            forall|id2: u128|
                #[trigger] old(self).store().has_id(id2) && (old(self).store().order_of(id2).side
                    == Side::Bid || old(self).store().order_of(id2).price > order.price) ==> final(self).store().has_id(id2) && final(self).store().order_of(id2) == old(self).store().order_of(id2),
            forall|id2: u128|
                #[trigger] final(self).store().has_id(id2) && id2 != order.id ==> old(self).store().has_id(id2),
    {
        let mut order_fills: Vec<FillMetaData> = Vec::new();
        let mut remaining_quantity = order.quantity;
        self.walk_asks(order.id, order.price, &mut remaining_quantity, &mut order_fills);
        if remaining_quantity == 0 {
            proof {
                if order_fills@.len() == 0 {
                    assert(fills_qty(order_fills@) == 0);
                }
            }
            let last_price = order_fills[order_fills.len() - 1].price;
            self.last_trade_price = last_price;
        }
        let ghost mid = *self;
        let r = self.process_bid_fills(order, order_fills, remaining_quantity);
        proof {
            assert(self.non_crossing()) by {
                assert forall|i: int, j: int|
                    0 <= i < self.bids().len() && 0 <= j < self.asks().len() && (
                    #[trigger] self.bids()[i]).queue@.len() > 0 && (
                    #[trigger] self.asks()[j]).queue@.len() > 0 implies self.bids()[i].price
                    < self.asks()[j].price by {
                    assert(self.asks() == mid.asks());
                    assert(mid.asks()[j].queue@.len() > 0);
                    assert(old(self).asks()[j].queue@.len() > 0 && mid.asks()[j].price == old(self).asks()[j].price);
                    if remaining_quantity == 0 {
                        assert(*self == mid);
                        assert(mid.bids() == old(self).bids());
                        assert(old(self).bids()[i].queue@.len() > 0);
                    } else {
                        if self.bids()[i].price == order.price {
                            if remaining_quantity == order.quantity {
                                if self.asks()[j].price <= order.price {
                                    Self::lemma_crossable_pos(
                                        old(self).store(),
                                        old(self).asks(),
                                        Side::Bid,
                                        order.price,
                                        j,
                                        Side::Ask,
                                    );
                                    assert(false);
                                }
                            } else {
                                assert(mid.asks()[j].price <= order.price ==> mid.asks()[
                                    j
                                ].queue@.len() == 0);
                            }
                        } else {
                            let w = choose|w: int|
                                0 <= w < old(self).bids().len() && (#[trigger] old(self).bids()[
                                    w
                                ]).price == self.bids()[i].price && old(self).bids()[
                                    w
                                ].queue@.len() > 0;
                            assert(old(self).bids()[w].price < old(self).asks()[j].price);
                        }
                    }
                }
            }
        }
        let ghost pre_top = *self;
        self.refresh_tops();
        proof {
            assert(self.non_crossing()) by {
                assert(self.bids() == pre_top.bids());
                assert(self.asks() == pre_top.asks());
            }
            if remaining_quantity == 0 && order_fills@.len() > 0 {
                assert(order_fills@[order_fills@.len() - 1] == order_fills@.last());
            }
            lemma_crossable_nonneg(old(self).store(), old(self).asks(), Side::Bid, order.price);
            if remaining_quantity > 0 {
                assert(mid.bids() == old(self).bids());
                assert forall|p: u64|
                    #![trigger queue_at(self.bids(), p)]
                    #![trigger queue_at(old(self).bids(), p)]
                    p != order.price implies queue_at(self.bids(), p) == queue_at(
                    old(self).bids(),
                    p,
                ) && (has_level(self.bids(), p) <==> has_level(old(self).bids(), p)) by {
                    assert(queue_at(pre_top.bids(), p) == queue_at(mid.bids(), p) && (has_level(
                        pre_top.bids(),
                        p,
                    ) <==> has_level(mid.bids(), p)));
                }
            }
        }
        r
    }

    /// Places a market bid: fails when no ask rests, otherwise crosses the
    /// ask side without a price bound. A remainder that survives the whole
    /// side rests as a limit order at the price of the last fill.
    #[verifier::rlimit(100)]
    pub fn market_bid_order(&mut self, order: MarketOrder) -> (r: FillResult)
        requires
            old(self).wf(),
            order.side == Side::Bid,
            order.quantity > 0,
            !old(self).store().has_id(order.id),
        ensures
            final(self).wf(),
            final(self).same_config(*old(self)),
            old(self).spec_min_ask() is None ==> r == FillResult::Failed && *final(self) == *old(self),
            old(self).spec_min_ask() is Some ==> ({
                let cq = crossable_qty(old(self).store(), old(self).asks(), Side::Bid, u64::MAX);
                let rem: u64 = if cq >= order.quantity {
                    0u64
                } else {
                    (order.quantity - cq) as u64
                };
                &&& rem < order.quantity
                &&& (rem == 0 ==> (r matches FillResult::Filled(fills) && fills_qty(fills@)
                    == order.quantity && fills@.len() > 0 && final(self).spec_last_trade_price()
                    == fills@.last().price))
                &&& (rem > 0 ==> (r matches FillResult::PartiallyFilled(res, fills) && res.id
                    == order.id && res.side == Side::Bid && res.quantity == rem && fills_qty(
                    fills@,
                ) == order.quantity - rem && fills@.len() > 0 && res.price == fills@.last().price
                    && final(self).store().has_id(order.id) && final(self).store().order_of(
                    order.id,
                ) == res && final(self).spec_last_trade_price() == old(self).spec_last_trade_price()))
                &&& (rem == 0 ==> !final(self).store().has_id(order.id))
                &&& final(self).total_resting() == old(self).total_resting() + 2 * rem
                    - order.quantity
                &&& forall|id2: u128|
                    #[trigger] old(self).store().has_id(id2) && old(self).store().order_of(
                        id2,
                    ).side == Side::Bid ==> final(self).store().has_id(id2) && final(self).store().order_of(id2) == old(self).store().order_of(id2)
                &&& (r matches FillResult::Filled(fills) ==> fills@ == walk_fills(
                    old(self).store(),
                    old(self).asks(),
                    order.id,
                    Side::Bid,
                    u64::MAX,
                    order.quantity as int,
                ) && final(self).asks().len() == old(self).asks().len() && (forall|j: int|
                    0 <= j < old(self).asks().len() ==> queue_qty(
                        final(self).store(),
                        (#[trigger] final(self).asks()[j]).queue@,
                    ) == level_remainder(
                        old(self).store(),
                        old(self).asks(),
                        Side::Bid,
                        u64::MAX,
                        order.quantity as int,
                        j,
                    )))
                &&& (rem > 0 ==> forall|j: int|
                    0 <= j < final(self).asks().len() ==> (#[trigger] final(self).asks()[j]).queue@.len() == 0)
                &&& (r matches FillResult::PartiallyFilled(res2, fills2) ==> fills2@ == walk_fills(
                    old(self).store(),
                    old(self).asks(),
                    order.id,
                    Side::Bid,
                    u64::MAX,
                    order.quantity as int,
                ))
            }),
    {
        if self.min_ask.is_none() {
            return FillResult::Failed;
        }
        let mut order_fills: Vec<FillMetaData> = Vec::new();
        let mut remaining_quantity = order.quantity;
        self.walk_asks(order.id, u64::MAX, &mut remaining_quantity, &mut order_fills);
        proof {
            let p = old(self).spec_min_ask().unwrap();
            let w = choose|w: int|
                0 <= w < old(self).asks().len() && (#[trigger] old(self).asks()[w]).price == p
                    && old(self).asks()[w].queue@.len() > 0;
            Self::lemma_crossable_pos(
                old(self).store(),
                old(self).asks(),
                Side::Bid,
                u64::MAX,
                w,
                Side::Ask,
            );
            assert(remaining_quantity < order.quantity);
            if order_fills@.len() == 0 {
                assert(fills_qty(order_fills@) == 0);
                assert(false);
            }
        }
        proof {
            assert(order_fills@[order_fills@.len() - 1] == order_fills@.last());
        }
        let last_price = order_fills[order_fills.len() - 1].price;
        if remaining_quantity == 0 {
            self.last_trade_price = last_price;
        }
        let limit_form = order.to_limit(last_price);
        let ghost mid = *self;
        let r = self.process_bid_fills(limit_form, order_fills, remaining_quantity);
        proof {
            assert(self.non_crossing()) by {
                assert forall|i: int, j: int|
                    0 <= i < self.bids().len() && 0 <= j < self.asks().len() && (
                    #[trigger] self.bids()[i]).queue@.len() > 0 && (
                    #[trigger] self.asks()[j]).queue@.len() > 0 implies self.bids()[i].price
                    < self.asks()[j].price by {
                    assert(self.asks() == mid.asks());
                    if remaining_quantity == 0 {
                        assert(*self == mid);
                        assert(old(self).asks()[j].queue@.len() > 0);
                        assert(old(self).bids()[i].queue@.len() > 0);
                    } else {
                        assert(mid.asks()[j].price <= u64::MAX ==> mid.asks()[j].queue@.len()
                            == 0);
                    }
                }
            }
        }
        let ghost pre_top = *self;
        self.refresh_tops();
        proof {
            assert(self.non_crossing()) by {
                assert(self.bids() == pre_top.bids());
                assert(self.asks() == pre_top.asks());
            }
        }
        r
    }


    /// Places a limit bid. It never fails: the order crosses the resting
    /// asks at or below its price, lowest first, and any remainder rests
    /// at its price. Exactly the crossable ask quantity is consumed,
    /// capped by the order's quantity; a full fill records the last fill's
    /// price as the last trade price; the cached tops are recomputed and
    /// the book does not cross afterwards.
    #[verifier::rlimit(100)]
    pub fn limit_ask_order(&mut self, order: LimitOrder) -> (r: FillResult)
        requires
            old(self).books_ok(),
            old(self).non_crossing(),
            limit_order_wf(order),
            order.side == Side::Ask,
            !old(self).store().has_id(order.id),
        ensures
            final(self).wf(),
            final(self).same_config(*old(self)),
            ({
                let cq = crossable_qty(old(self).store(), old(self).bids(), Side::Ask, order.price);
                let rem: u64 = if cq >= order.quantity {
                    0u64
                } else {
                    (order.quantity - cq) as u64
                };
                &&& (rem == order.quantity ==> r == FillResult::Created(order))
                &&& (0 < rem < order.quantity ==> (r matches FillResult::PartiallyFilled(res, fills)
                    && res == (LimitOrder { quantity: rem, ..order }) && fills_qty(fills@)
                    == order.quantity - rem))
                &&& (rem == 0 ==> (r matches FillResult::Filled(fills) && fills_qty(fills@)
                    == order.quantity && fills@.len() > 0 && final(self).spec_last_trade_price()
                    == fills@.last().price))
                &&& (rem > 0 ==> final(self).store().has_id(order.id) && final(self).store().order_of(order.id) == (LimitOrder { quantity: rem, ..order })
                    && final(self).spec_last_trade_price() == old(self).spec_last_trade_price())
                &&& (rem == 0 ==> !final(self).store().has_id(order.id))
                &&& (rem == order.quantity ==> final(self).bids() == old(self).bids())
                &&& (rem == 0 ==> final(self).asks() == old(self).asks())
                &&& (rem > 0 ==> queue_at(final(self).asks(), order.price) == queue_at(
                    old(self).asks(),
                    order.price,
                ).push(final(self).store().slot_of(order.id)) && has_level(
                    final(self).asks(),
                    order.price,
                ) && (forall|p: u64|
                    #![trigger queue_at(final(self).asks(), p)]
                    #![trigger queue_at(old(self).asks(), p)]
                    p != order.price ==> queue_at(final(self).asks(), p) == queue_at(
                        old(self).asks(),
                        p,
                    ) && (has_level(final(self).asks(), p) <==> has_level(old(self).asks(), p))))
                &&& final(self).total_resting() == old(self).total_resting() + 2 * rem
                    - order.quantity
            }),
            (r matches FillResult::Filled(fills) ==> forall|j: int|
                0 <= j < fills@.len() ==> {
                    let fill = #[trigger] fills@[j];
                    &&& fill.order_id == order.id
                    &&& fill.taker_side == Side::Ask
                    &&& fill.price >= order.price && fill.price > 0
                    &&& fill.quantity > 0
                }),
            (r matches FillResult::PartiallyFilled(res, fills) ==> forall|j: int|
                0 <= j < fills@.len() ==> {
                    let fill = #[trigger] fills@[j];
                    &&& fill.order_id == order.id
                    &&& fill.taker_side == Side::Ask
                    &&& fill.price >= order.price && fill.price > 0
                    &&& fill.quantity > 0
                }),
            (r matches FillResult::Filled(fills) ==> fills@ == walk_fills(
                old(self).store(),
                rev_levels(old(self).bids()),
                order.id,
                Side::Ask,
                order.price,
                order.quantity as int,
            ) && final(self).bids().len() == old(self).bids().len() && (forall|j: int|
                0 <= j < old(self).bids().len() ==> queue_qty(
                    final(self).store(),
                    (#[trigger] final(self).bids()[j]).queue@,
                ) == level_remainder(
                    old(self).store(),
                    rev_levels(old(self).bids()),
                    Side::Ask,
                    order.price,
                    order.quantity as int,
                    old(self).bids().len() - 1 - j,
                ))),
            (r matches FillResult::PartiallyFilled(res2, fills2) ==> fills2@ == walk_fills(
                old(self).store(),
                rev_levels(old(self).bids()),
                order.id,
                Side::Ask,
                order.price,
                order.quantity as int,
            )),
            forall|id2: u128|
                #[trigger] old(self).store().has_id(id2) && (old(self).store().order_of(id2).side
                    == Side::Ask || old(self).store().order_of(id2).price < order.price) ==> final(self).store().has_id(id2) && final(self).store().order_of(id2) == old(self).store().order_of(id2),
            forall|id2: u128|
                #[trigger] final(self).store().has_id(id2) && id2 != order.id ==> old(self).store().has_id(id2),
    {
        let mut order_fills: Vec<FillMetaData> = Vec::new();
        let mut remaining_quantity = order.quantity;
        self.walk_bids(order.id, order.price, &mut remaining_quantity, &mut order_fills);
        if remaining_quantity == 0 {
            proof {
                if order_fills@.len() == 0 {
                    assert(fills_qty(order_fills@) == 0);
                }
            }
            let last_price = order_fills[order_fills.len() - 1].price;
            self.last_trade_price = last_price;
        }
        let ghost mid = *self;
        let r = self.process_ask_fills(order, order_fills, remaining_quantity);
        proof {
            assert(self.non_crossing()) by {
                assert forall|i: int, j: int|
                    0 <= i < self.asks().len() && 0 <= j < self.bids().len() && (
                    #[trigger] self.asks()[i]).queue@.len() > 0 && (
                    #[trigger] self.bids()[j]).queue@.len() > 0 implies self.bids()[j].price
                    < self.asks()[i].price by {
                    assert(self.bids() == mid.bids());
                    assert(mid.bids()[j].queue@.len() > 0);
                    assert(old(self).bids()[j].queue@.len() > 0 && mid.bids()[j].price == old(self).bids()[j].price);
                    if remaining_quantity == 0 {
                        assert(*self == mid);
                        assert(mid.asks() == old(self).asks());
                        assert(old(self).asks()[i].queue@.len() > 0);
                    } else {
                        if self.asks()[i].price == order.price {
                            if remaining_quantity == order.quantity {
                                if self.bids()[j].price >= order.price {
                                    Self::lemma_crossable_pos(
                                        old(self).store(),
                                        old(self).bids(),
                                        Side::Ask,
                                        order.price,
                                        j,
                                        Side::Bid,
                                    );
                                    assert(false);
                                }
                            } else {
                                assert(mid.bids()[j].price >= order.price ==> mid.bids()[
                                    j
                                ].queue@.len() == 0);
                            }
                        } else {
                            let w = choose|w: int|
                                0 <= w < old(self).asks().len() && (#[trigger] old(self).asks()[
                                    w
                                ]).price == self.asks()[i].price && old(self).asks()[
                                    w
                                ].queue@.len() > 0;
                            assert(old(self).bids()[j].price < old(self).asks()[w].price);
                        }
                    }
                }
            }
        }
        let ghost pre_top = *self;
        self.refresh_tops();
        proof {
            assert(self.non_crossing()) by {
                assert(self.asks() == pre_top.asks());
                assert(self.bids() == pre_top.bids());
            }
            if remaining_quantity == 0 && order_fills@.len() > 0 {
                assert(order_fills@[order_fills@.len() - 1] == order_fills@.last());
            }
            lemma_crossable_nonneg(old(self).store(), old(self).bids(), Side::Ask, order.price);
            if remaining_quantity > 0 {
                assert(mid.asks() == old(self).asks());
                assert forall|p: u64|
                    #![trigger queue_at(self.asks(), p)]
                    #![trigger queue_at(old(self).asks(), p)]
                    p != order.price implies queue_at(self.asks(), p) == queue_at(
                    old(self).asks(),
                    p,
                ) && (has_level(self.asks(), p) <==> has_level(old(self).asks(), p)) by {
                    assert(queue_at(pre_top.asks(), p) == queue_at(mid.asks(), p) && (has_level(
                        pre_top.asks(),
                        p,
                    ) <==> has_level(mid.asks(), p)));
                }
            }
        }
        r
    }

    /// Places a market bid: fails when no ask rests, otherwise crosses the
    /// ask side without a price bound. A remainder that survives the whole
    /// side rests as a limit order at the price of the last fill.
    #[verifier::rlimit(100)]
    pub fn market_ask_order(&mut self, order: MarketOrder) -> (r: FillResult)
        requires
            old(self).wf(),
            order.side == Side::Ask,
            order.quantity > 0,
            !old(self).store().has_id(order.id),
        ensures
            final(self).wf(),
            final(self).same_config(*old(self)),
            old(self).spec_max_bid() is None ==> r == FillResult::Failed && *final(self) == *old(self),
            old(self).spec_max_bid() is Some ==> ({
                let cq = crossable_qty(old(self).store(), old(self).bids(), Side::Ask, u64::MIN);
                let rem: u64 = if cq >= order.quantity {
                    0u64
                } else {
                    (order.quantity - cq) as u64
                };
                &&& rem < order.quantity
                &&& (rem == 0 ==> (r matches FillResult::Filled(fills) && fills_qty(fills@)
                    == order.quantity && fills@.len() > 0 && final(self).spec_last_trade_price()
                    == fills@.last().price))
                &&& (rem > 0 ==> (r matches FillResult::PartiallyFilled(res, fills) && res.id
                    == order.id && res.side == Side::Ask && res.quantity == rem && fills_qty(
                    fills@,
                ) == order.quantity - rem && fills@.len() > 0 && res.price == fills@.last().price
                    && final(self).store().has_id(order.id) && final(self).store().order_of(
                    order.id,
                ) == res && final(self).spec_last_trade_price() == old(self).spec_last_trade_price()))
                &&& (rem == 0 ==> !final(self).store().has_id(order.id))
                &&& final(self).total_resting() == old(self).total_resting() + 2 * rem
                    - order.quantity
                &&& forall|id2: u128|
                    #[trigger] old(self).store().has_id(id2) && old(self).store().order_of(
                        id2,
                    ).side == Side::Ask ==> final(self).store().has_id(id2) && final(self).store().order_of(id2) == old(self).store().order_of(id2)
                &&& (r matches FillResult::Filled(fills) ==> fills@ == walk_fills(
                    old(self).store(),
                    rev_levels(old(self).bids()),
                    order.id,
                    Side::Ask,
                    u64::MIN,
                    order.quantity as int,
                ) && final(self).bids().len() == old(self).bids().len() && (forall|j: int|
                    0 <= j < old(self).bids().len() ==> queue_qty(
                        final(self).store(),
                        (#[trigger] final(self).bids()[j]).queue@,
                    ) == level_remainder(
                        old(self).store(),
                        rev_levels(old(self).bids()),
                        Side::Ask,
                        u64::MIN,
                        order.quantity as int,
                        old(self).bids().len() - 1 - j,
                    )))
                &&& (rem > 0 ==> forall|j: int|
                    0 <= j < final(self).bids().len() ==> (#[trigger] final(self).bids()[j]).queue@.len() == 0)
                &&& (r matches FillResult::PartiallyFilled(res2, fills2) ==> fills2@ == walk_fills(
                    old(self).store(),
                    rev_levels(old(self).bids()),
                    order.id,
                    Side::Ask,
                    u64::MIN,
                    order.quantity as int,
                ))
            }),
    {
        if self.max_bid.is_none() {
            return FillResult::Failed;
        }
        let mut order_fills: Vec<FillMetaData> = Vec::new();
        let mut remaining_quantity = order.quantity;
        self.walk_bids(order.id, u64::MIN, &mut remaining_quantity, &mut order_fills);
        proof {
            let p = old(self).spec_max_bid().unwrap();
            let w = choose|w: int|
                0 <= w < old(self).bids().len() && (#[trigger] old(self).bids()[w]).price == p
                    && old(self).bids()[w].queue@.len() > 0;
            Self::lemma_crossable_pos(
                old(self).store(),
                old(self).bids(),
                Side::Ask,
                u64::MIN,
                w,
                Side::Bid,
            );
            assert(remaining_quantity < order.quantity);
            if order_fills@.len() == 0 {
                assert(fills_qty(order_fills@) == 0);
                assert(false);
            }
        }
        proof {
            assert(order_fills@[order_fills@.len() - 1] == order_fills@.last());
        }
        let last_price = order_fills[order_fills.len() - 1].price;
        if remaining_quantity == 0 {
            self.last_trade_price = last_price;
        }
        let limit_form = order.to_limit(last_price);
        let ghost mid = *self;
        let r = self.process_ask_fills(limit_form, order_fills, remaining_quantity);
        proof {
            assert(self.non_crossing()) by {
                assert forall|i: int, j: int|
                    0 <= i < self.asks().len() && 0 <= j < self.bids().len() && (
                    #[trigger] self.asks()[i]).queue@.len() > 0 && (
                    #[trigger] self.bids()[j]).queue@.len() > 0 implies self.bids()[j].price
                    < self.asks()[i].price by {
                    assert(self.bids() == mid.bids());
                    if remaining_quantity == 0 {
                        assert(*self == mid);
                        assert(old(self).bids()[j].queue@.len() > 0);
                        assert(old(self).asks()[i].queue@.len() > 0);
                    } else {
                        assert(mid.bids()[j].price >= u64::MIN ==> mid.bids()[j].queue@.len()
                            == 0);
                    }
                }
            }
        }
        let ghost pre_top = *self;
        self.refresh_tops();
        proof {
            assert(self.non_crossing()) by {
                assert(self.asks() == pre_top.asks());
                assert(self.bids() == pre_top.bids());
            }
        }
        r
    }



    /// Removing every occurrence of one slot takes exactly its open
    /// quantity out of a duplicate-free queue that holds it.
    pub proof fn lemma_queue_qty_remove_all(store: Store, q: Seq<usize>, slot: usize)
        requires
            q.no_duplicates(),
        ensures
            queue_qty(store, remove_all(q, slot)) == queue_qty(store, q) - (if q.contains(slot) {
                store.slots()[slot as int].quantity as int
            } else {
                0
            }),
        decreases q.len(),
    {
        if q.len() > 0 {
            let t = q.drop_last();
            assert forall|a: int, b: int| 0 <= a < b < t.len() implies t[a] != t[b] by {
                assert(q[a] == t[a] && q[b] == t[b]);
            }
            Self::lemma_queue_qty_remove_all(store, t, slot);
            if q.last() == slot {
                if t.contains(slot) {
                    let k = choose|k: int| 0 <= k < t.len() && t[k] == slot;
                    assert(q[k] == q[q.len() - 1]);
                    assert(false);
                }
                assert(q[q.len() - 1] == slot);
                assert(q.contains(slot));
            } else {
                assert(remove_all(q, slot) == remove_all(t, slot).push(q.last()));
                assert(remove_all(t, slot).push(q.last()).drop_last() =~= remove_all(t, slot));
                assert(remove_all(t, slot).push(q.last()).last() == q.last());
                if q.contains(slot) {
                    let k = choose|k: int| 0 <= k < q.len() && q[k] == slot;
                    assert(k < q.len() - 1);
                    assert(t[k] == slot);
                    assert(t.contains(slot));
                } else {
                    if t.contains(slot) {
                        let k = choose|k: int| 0 <= k < t.len() && t[k] == slot;
                        assert(q[k] == slot);
                        assert(q.contains(slot));
                        assert(false);
                    }
                }
            }
        }
    }

    /// Changing one slot's record moves a duplicate-free queue's total by
    /// exactly the quantity difference at that slot.
    pub proof fn lemma_queue_qty_set(st0: Store, st1: Store, q: Seq<usize>, slot: usize)
        requires
            q.no_duplicates(),
            forall|k: int|
                0 <= k < q.len() && (#[trigger] q[k]) != slot ==> st1.slots()[q[k] as int]
                    == st0.slots()[q[k] as int],
        ensures
            queue_qty(st1, q) == queue_qty(st0, q) + (if q.contains(slot) {
                st1.slots()[slot as int].quantity - st0.slots()[slot as int].quantity
            } else {
                0
            }),
        decreases q.len(),
    {
        if q.len() > 0 {
            let t = q.drop_last();
            assert forall|a: int, b: int| 0 <= a < b < t.len() implies t[a] != t[b] by {
                assert(q[a] == t[a] && q[b] == t[b]);
            }
            assert forall|k: int|
                0 <= k < t.len() && (#[trigger] t[k]) != slot implies st1.slots()[t[k] as int]
                == st0.slots()[t[k] as int] by {
                assert(q[k] == t[k]);
            }
            Self::lemma_queue_qty_set(st0, st1, t, slot);
            if q.last() == slot {
                assert(q[q.len() - 1] == slot);
                assert(q.contains(slot));
                if t.contains(slot) {
                    let k = choose|k: int| 0 <= k < t.len() && t[k] == slot;
                    assert(q[k] == q[q.len() - 1]);
                    assert(false);
                }
            } else {
                assert(q[q.len() - 1] != slot);
                if q.contains(slot) {
                    let k = choose|k: int| 0 <= k < q.len() && q[k] == slot;
                    assert(k < q.len() - 1);
                    assert(t[k] == slot);
                    assert(t.contains(slot));
                } else {
                    if t.contains(slot) {
                        let k = choose|k: int| 0 <= k < t.len() && t[k] == slot;
                        assert(q[k] == slot);
                        assert(false);
                    }
                }
            }
        }
    }

    /// Unlinks a resting order: its slot leaves its level's queue, keeping
    /// the order of the rest, and its record is deleted. The cached tops
    /// are left for the caller to refresh.
    #[verifier::rlimit(100)]
    fn remove_resting(&mut self, id: u128) -> (r: Option<LimitOrder>)
        requires
            old(self).books_ok(),
        ensures
            final(self).books_ok(),
            final(self).same_config(*old(self)),
            final(self).spec_last_trade_price() == old(self).spec_last_trade_price(),
            !old(self).store().has_id(id) ==> r is None && *final(self) == *old(self),
            old(self).store().has_id(id) ==> ({
                let o = old(self).store().order_of(id);
                &&& r == Some(o)
                &&& !final(self).store().has_id(id)
                &&& forall|id2: u128|
                    #[trigger] final(self).store().has_id(id2) ==> id2 != id && old(self).store().has_id(id2)
                &&& forall|id2: u128|
                    #[trigger] old(self).store().has_id(id2) && id2 != id ==> final(self).store().has_id(id2) && final(self).store().order_of(id2) == old(self).store().order_of(id2) && final(self).store().slot_of(id2) == old(self).store().slot_of(id2)
                &&& final(self).side_levels(o.side.spec_opposite()) == old(self).side_levels(
                    o.side.spec_opposite(),
                )
                &&& final(self).side_levels(o.side).len() == old(self).side_levels(o.side).len()
                &&& forall|j: int|
                    0 <= j < old(self).side_levels(o.side).len() ==> (#[trigger] final(self).side_levels(o.side)[j]).price == old(self).side_levels(o.side)[j].price && (final(self).side_levels(o.side)[j].queue@.len() > 0 ==> old(self).side_levels(o.side)[j].queue@.len() > 0)
                &&& queue_at(final(self).side_levels(o.side), o.price) == remove_all(
                    queue_at(old(self).side_levels(o.side), o.price),
                    old(self).store().slot_of(id),
                )
                &&& side_qty(final(self).store(), final(self).side_levels(o.side)) == side_qty(
                    old(self).store(),
                    old(self).side_levels(o.side),
                ) - o.quantity
                &&& side_qty(
                    final(self).store(),
                    final(self).side_levels(o.side.spec_opposite()),
                ) == side_qty(old(self).store(), old(self).side_levels(o.side.spec_opposite()))
            }),
    {
        let got = self.order_store.get(id);
        match got {
            None => None,
            Some((order, index)) => {
                let ghost st0 = self.order_store;
                let ghost lv0 = self.side_levels(order.side);
                let ghost opp0 = self.side_levels(order.side.spec_opposite());
                proof {
                    assert(book_contains_slot(lv0, order.price, index));
                }
                let li: usize;
                match order.side {
                    Side::Bid => {
                        let found = self.bid_side_book.find_level(order.price);
                        proof {
                            if found is None {
                                let w = choose|w: int|
                                    0 <= w < lv0.len() && (#[trigger] lv0[w]).price == order.price
                                        && lv0[w].queue@.contains(index);
                                assert(self.bid_side_book.has_price(order.price));
                                assert(false);
                            }
                        }
                        li = found.unwrap();
                        self.bid_side_book.remove_slot(li, index);
                    },
                    Side::Ask => {
                        let found = self.ask_side_book.find_level(order.price);
                        proof {
                            if found is None {
                                let w = choose|w: int|
                                    0 <= w < lv0.len() && (#[trigger] lv0[w]).price == order.price
                                        && lv0[w].queue@.contains(index);
                                assert(self.ask_side_book.has_price(order.price));
                                assert(false);
                            }
                        }
                        li = found.unwrap();
                        self.ask_side_book.remove_slot(li, index);
                    },
                }
                let ghost lv_mid = self.side_levels(order.side);
                self.order_store.delete(&id);
                proof {
                    let st1 = self.order_store;
                    let lv1 = self.side_levels(order.side);
                    let side = order.side;
                    let q0 = lv0[li as int].queue@;
                    let q1 = lv1[li as int].queue@;
                    assert(lv1 == lv_mid);
                    assert(q1 == remove_all(q0, index));
                    lemma_queue_at(lv0, li as int);
                    lemma_queue_at(lv1, li as int);
                    lemma_remove_all(q0, index);
                    lemma_remove_all_no_duplicates(q0, index);
                    // the freed slot stands in no other queue, so nothing
                    // else moved
                    assert forall|j: int, k: int|
                        0 <= j < lv0.len() && j != li as int && 0 <= k < (
                        #[trigger] lv0[j]).queue@.len() implies (#[trigger] lv0[j].queue@[k])
                        != index && st1.slots()[lv0[j].queue@[k] as int] == st0.slots()[
                    lv0[j].queue@[k] as int] by {
                        assert(queue_ok(st0, lv0[j].queue@, lv0[j].price, side));
                        assert(slot_ok(st0, lv0[j].queue@[k], lv0[j].price, side));
                        if lv0[j].queue@[k] == index {
                            assert(st0.slots()[index as int].price == lv0[j].price);
                            assert(st0.slots()[index as int].price == order.price);
                            assert(lv0[li as int].price == order.price);
                            assert(false);
                        }
                    }
                    assert forall|j: int, k: int|
                        0 <= j < opp0.len() && 0 <= k < (#[trigger] opp0[j]).queue@.len() implies (
                    #[trigger] opp0[j].queue@[k]) != index && st1.slots()[
                    opp0[j].queue@[k] as int] == st0.slots()[opp0[j].queue@[k] as int] by {
                        assert(queue_ok(st0, opp0[j].queue@, opp0[j].price, side.spec_opposite()));
                        assert(slot_ok(st0, opp0[j].queue@[k], opp0[j].price, side.spec_opposite()));
                    }
                    // the touched queue under the new store
                    assert forall|k: int| 0 <= k < q1.len() implies slot_ok(
                        st1,
                        #[trigger] q1[k],
                        order.price,
                        side,
                    ) by {
                        assert(q0.contains(q1[k]) && q1[k] != index);
                        let m = choose|m: int| 0 <= m < q0.len() && q0[m] == q1[k];
                        assert(slot_ok(st0, q0[m], order.price, side));
                        let sid = st0.slots()[q1[k] as int].id;
                        assert(st0.slot_of(sid) == q1[k]);
                        assert(sid != id);
                        assert(st1.has_id(sid));
                        assert(st1.slots()[q1[k] as int] == st0.slots()[q1[k] as int]);
                    }
                    assert(queue_ok(st1, q1, order.price, side));
                    assert(side_ok(st1, lv1, side)) by {
                        assert forall|j: int| 0 <= j < lv1.len() implies (
                        #[trigger] lv1[j]).price > 0 && queue_ok(
                            st1,
                            lv1[j].queue@,
                            lv1[j].price,
                            side,
                        ) by {
                            if j != li as int {
                                assert(lv1[j] == lv0[j]);
                                assert(queue_ok(st0, lv0[j].queue@, lv0[j].price, side));
                                assert forall|k: int| 0 <= k < lv0[j].queue@.len() implies slot_ok(
                                    st1,
                                    #[trigger] lv0[j].queue@[k],
                                    lv0[j].price,
                                    side,
                                ) by {
                                    assert(slot_ok(st0, lv0[j].queue@[k], lv0[j].price, side));
                                    let sid = st0.slots()[lv0[j].queue@[k] as int].id;
                                    assert(st0.slot_of(sid) == lv0[j].queue@[k]);
                                    assert(sid != id);
                                }
                            }
                        }
                        assert(prices_sorted(lv1)) by {
                            assert forall|a: int, b: int| 0 <= a < b < lv1.len() implies (
                            #[trigger] lv1[a]).price < (#[trigger] lv1[b]).price by {
                                assert(lv1[a].price == lv0[a].price);
                                assert(lv1[b].price == lv0[b].price);
                            }
                        }
                    }
                    assert(side_ok(st1, opp0, side.spec_opposite())) by {
                        assert forall|j: int| 0 <= j < opp0.len() implies (
                        #[trigger] opp0[j]).price > 0 && queue_ok(
                            st1,
                            opp0[j].queue@,
                            opp0[j].price,
                            side.spec_opposite(),
                        ) by {
                            assert(queue_ok(st0, opp0[j].queue@, opp0[j].price, side.spec_opposite()));
                            assert forall|k: int| 0 <= k < opp0[j].queue@.len() implies slot_ok(
                                st1,
                                #[trigger] opp0[j].queue@[k],
                                opp0[j].price,
                                side.spec_opposite(),
                            ) by {
                                assert(slot_ok(st0, opp0[j].queue@[k], opp0[j].price, side.spec_opposite()));
                                let sid = st0.slots()[opp0[j].queue@[k] as int].id;
                                assert(st0.slot_of(sid) == opp0[j].queue@[k]);
                                assert(sid != id);
                            }
                        }
                    }
                    // every surviving order still stands in its book
                    assert forall|id2: u128| #[trigger] st1.has_id(id2) implies book_contains_slot(
                        self.side_levels(st1.order_of(id2).side),
                        st1.order_of(id2).price,
                        st1.slot_of(id2),
                    ) by {
                        assert(st0.has_id(id2) && id2 != id);
                        let o2 = st0.order_of(id2);
                        let s2 = st0.slot_of(id2);
                        st0.lemma_live_order(id2);
                        st0.lemma_live_order(id);
                        if s2 == index {
                            assert(st0.slots()[s2 as int].id == id2);
                            assert(st0.slots()[index as int].id == id);
                            assert(false);
                        }
                        assert(s2 != index);
                        assert(st1.order_of(id2) == o2);
                        assert(book_contains_slot(
                            old(self).side_levels(o2.side),
                            o2.price,
                            s2,
                        ));
                        if o2.side == side {
                            let w = choose|w: int|
                                0 <= w < lv0.len() && (#[trigger] lv0[w]).price == o2.price && lv0[
                                    w
                                ].queue@.contains(s2);
                            if w == li as int {
                                assert(q1.contains(s2));
                                assert(book_contains_slot(lv1, o2.price, s2));
                            } else {
                                assert(lv1[w] == lv0[w]);
                                assert(book_contains_slot(lv1, o2.price, s2));
                            }
                        }
                    }
                    // the other live orders and their records are kept
                    assert forall|id2: u128| #[trigger] st1.has_id(id2) implies id2 != id
                        && st0.has_id(id2) by {}
                    assert forall|id2: u128| #[trigger] st0.has_id(id2) && id2 != id implies
                        st1.has_id(id2) && st1.order_of(id2) == st0.order_of(id2) && st1.slot_of(
                        id2,
                    ) == st0.slot_of(id2) by {
                        st0.lemma_live_order(id2);
                        st0.lemma_live_order(id);
                        if st0.slot_of(id2) == index {
                            assert(st0.slots()[st0.slot_of(id2) as int].id == id2);
                            assert(st0.slots()[index as int].id == id);
                            assert(false);
                        }
                    }
                    // totals
                    assert(q0.contains(index)) by {
                        let w = choose|w: int|
                            0 <= w < lv0.len() && (#[trigger] lv0[w]).price == order.price && lv0[
                                w
                            ].queue@.contains(index);
                        lemma_queue_at(lv0, w);
                        assert(w == li as int);
                    }
                    Self::lemma_queue_qty_remove_all(st0, q0, index);
                    lemma_queue_qty_congruence(st1, st0, q1);
                    lemma_side_qty_update_two(st0, st1, lv0, li as int, lv1[li as int]);
                    assert(lv1 =~= lv0.update(li as int, lv1[li as int]));
                    lemma_side_qty_congruence(st1, st0, opp0);
                }
                Some(order)
            },
        }
    }

    /// Cancels a resting order by id: it leaves its queue, the order of
    /// the rest is kept, and the cached tops are recomputed.
    pub fn cancel_order(&mut self, id: u128) -> (r: Option<u128>)
        requires
            old(self).wf(),
        ensures
            final(self).wf(),
            final(self).same_config(*old(self)),
            final(self).spec_last_trade_price() == old(self).spec_last_trade_price(),
            !old(self).store().has_id(id) ==> r is None && *final(self) == *old(self),
            old(self).store().has_id(id) ==> ({
                let o = old(self).store().order_of(id);
                &&& r == Some(id)
                &&& !final(self).store().has_id(id)
                &&& forall|id2: u128|
                    #[trigger] final(self).store().has_id(id2) ==> id2 != id && old(self).store().has_id(id2)
                &&& forall|id2: u128|
                    #[trigger] old(self).store().has_id(id2) && id2 != id ==> final(self).store().has_id(id2) && final(self).store().order_of(id2) == old(self).store().order_of(id2)
                &&& queue_at(final(self).side_levels(o.side), o.price) == remove_all(
                    queue_at(old(self).side_levels(o.side), o.price),
                    old(self).store().slot_of(id),
                )
                &&& final(self).side_levels(o.side.spec_opposite()) == old(self).side_levels(
                    o.side.spec_opposite(),
                )
                &&& final(self).total_resting() == old(self).total_resting() - o.quantity
            }),
    {
        let removed = self.remove_resting(id);
        match removed {
            None => None,
            Some(order) => {
                proof {
                    let o = order;
                    assert(self.non_crossing()) by {
                        assert forall|i: int, j: int|
                            0 <= i < self.bids().len() && 0 <= j < self.asks().len() && (
                            #[trigger] self.bids()[i]).queue@.len() > 0 && (
                            #[trigger] self.asks()[j]).queue@.len() > 0 implies self.bids()[
                            i
                        ].price < self.asks()[j].price by {
                            match o.side {
                                Side::Bid => {
                                    assert(self.asks() == old(self).asks());
                                    assert(old(self).bids()[i].queue@.len() > 0);
                                    assert(self.bids()[i].price == old(self).bids()[i].price);
                                },
                                Side::Ask => {
                                    assert(self.bids() == old(self).bids());
                                    assert(old(self).asks()[j].queue@.len() > 0);
                                    assert(self.asks()[j].price == old(self).asks()[j].price);
                                },
                            }
                        }
                    }
                }
                let ghost pre_top = *self;
                self.refresh_tops();
                proof {
                    assert(self.non_crossing()) by {
                        assert(self.bids() == pre_top.bids());
                        assert(self.asks() == pre_top.asks());
                    }
                }
                Some(id)
            },
        }
    }


    /// Modifies a resting bid. An unknown id, a stored order on the other
    /// side, or a request changing nothing fails and leaves the book as it
    /// was. An equal-price request updates the quantity in place, keeping
    /// the order's queue position. A price change removes the order and
    /// places it anew, exactly as a cancel followed by a limit placement:
    /// it loses its queue position and may itself match.
    #[verifier::rlimit(100)]
    pub fn modify_limit_buy_order(&mut self, order: LimitOrder) -> (r: ModifyResult)
        requires
            old(self).wf(),
            limit_order_wf(order),
            order.side == Side::Bid,
        ensures
            final(self).wf(),
            final(self).same_config(*old(self)),
            !(old(self).store().has_id(order.id) && old(self).store().order_of(order.id).side
                == Side::Bid) ==> r == ModifyResult::Failed && *final(self) == *old(self),
            old(self).store().has_id(order.id) && old(self).store().order_of(order.id).side
                == Side::Bid ==> ({
                let existing = old(self).store().order_of(order.id);
                &&& (existing.price == order.price && existing.quantity == order.quantity ==> r
                    == ModifyResult::Failed && *final(self) == *old(self))
                &&& (existing.price == order.price && existing.quantity != order.quantity ==> {
                    &&& r == ModifyResult::Modified(order.id)
                    &&& final(self).store().order_of(order.id) == order
                    &&& final(self).bids() == old(self).bids()
                    &&& final(self).asks() == old(self).asks()
                    &&& forall|id2: u128|
                        #[trigger] old(self).store().has_id(id2) && id2 != order.id ==> final(self).store().has_id(id2) && final(self).store().order_of(id2) == old(self).store().order_of(id2)
                    &&& final(self).total_resting() == old(self).total_resting()
                        - existing.quantity + order.quantity
                })
                &&& (existing.price != order.price ==> ({
                    let cq = crossable_qty(
                        old(self).store(),
                        old(self).asks(),
                        Side::Bid,
                        order.price,
                    );
                    let rem: u64 = if cq >= order.quantity {
                        0u64
                    } else {
                        (order.quantity - cq) as u64
                    };
                    &&& (r matches ModifyResult::Created(fr) && {
                        &&& (rem == order.quantity ==> fr == FillResult::Created(order))
                        &&& (0 < rem < order.quantity ==> (fr matches FillResult::PartiallyFilled(res, fills) && res == (LimitOrder { quantity: rem, ..order }) && fills_qty(fills@) == order.quantity - rem))
                        &&& (rem == 0 ==> (fr matches FillResult::Filled(fills) && fills_qty(
                            fills@,
                        ) == order.quantity))
                    })
                    &&& (rem > 0 ==> final(self).store().has_id(order.id) && final(self).store().order_of(order.id) == (LimitOrder { quantity: rem, ..order }))
                    &&& (forall|id2: u128|
                        #[trigger] old(self).store().has_id(id2) && id2 != order.id && (old(self).store().order_of(id2).side == Side::Bid || old(self).store().order_of(id2).price > order.price) ==> final(self).store().has_id(id2) && final(self).store().order_of(id2) == old(self).store().order_of(id2))
                    &&& (forall|id2: u128|
                        #[trigger] final(self).store().has_id(id2) && id2 != order.id ==> old(self).store().has_id(id2))
                    &&& final(self).total_resting() == old(self).total_resting()
                        - existing.quantity + 2 * rem - order.quantity
                }))
            }),
    {
        let got = self.order_store.get(order.id);
        match got {
            None => ModifyResult::Failed,
            Some((existing, index)) => {
                match existing.side {
                    Side::Ask => ModifyResult::Failed,
                    Side::Bid => {
                        if existing.price != order.price {
                            let ghost st0 = self.order_store;
                            let _ = self.remove_resting(order.id);
                            proof {
                                let st1 = self.order_store;
                                assert(self.asks() == old(self).asks());
                                assert forall|j: int, k: int|
                                    0 <= j < self.asks().len() && 0 <= k < (
                                    #[trigger] self.asks()[j]).queue@.len() implies st1.slots()[(
                                #[trigger] self.asks()[j].queue@[k]) as int] == st0.slots()[
                                self.asks()[j].queue@[k] as int] by {
                                    assert(queue_ok(
                                        st0,
                                        self.asks()[j].queue@,
                                        self.asks()[j].price,
                                        Side::Ask,
                                    ));
                                    let sl = self.asks()[j].queue@[k];
                                    assert(slot_ok(st0, sl, self.asks()[j].price, Side::Ask));
                                    let sid = st0.slots()[sl as int].id;
                                    assert(st0.has_id(sid) && st0.slot_of(sid) == sl);
                                    if sid == order.id {
                                        assert(st0.order_of(sid) == st0.slots()[sl as int]);
                                        assert(st0.order_of(sid).side == Side::Ask);
                                        assert(st0.order_of(order.id) == existing);
                                        assert(false);
                                    }
                                    assert(sid != order.id);
                                    assert(st1.has_id(sid));
                                    assert(st1.order_of(sid) == st0.order_of(sid));
                                    st1.lemma_live_order(sid);
                                    assert(st1.slot_of(sid) == sl);
                                    assert(st1.slots()[sl as int] == st1.order_of(sid));
                                }
                                lemma_crossable_congruence(
                                    st1,
                                    st0,
                                    self.asks(),
                                    Side::Bid,
                                    order.price,
                                );
                                assert(self.non_crossing()) by {
                                    assert forall|i: int, j: int|
                                        0 <= i < self.bids().len() && 0 <= j < self.asks().len()
                                            && (#[trigger] self.bids()[i]).queue@.len() > 0 && (
                                        #[trigger] self.asks()[j]).queue@.len() > 0 implies
                                        self.bids()[i].price < self.asks()[j].price by {
                                        assert(old(self).bids()[i].queue@.len() > 0);
                                        assert(self.bids()[i].price == old(self).bids()[i].price);
                                    }
                                }
                            }
                            let ghost mid_book = *self;
                            let fr = self.limit_bid_order(order);
                            proof {
                                assert forall|id2: u128|
                                    #[trigger] old(self).store().has_id(id2) && id2 != order.id
                                        && (old(self).store().order_of(id2).side == Side::Bid
                                        || old(self).store().order_of(id2).price
                                        > order.price) implies self.order_store.has_id(id2)
                                    && self.order_store.order_of(id2) == old(self).store().order_of(id2) by {
                                    assert(mid_book.store().has_id(id2) && mid_book.store().order_of(id2) == old(self).store().order_of(id2));
                                }
                                assert forall|id2: u128|
                                    #[trigger] self.order_store.has_id(id2) && id2
                                        != order.id implies old(self).store().has_id(id2) by {
                                    assert(mid_book.store().has_id(id2));
                                }
                            }
                            ModifyResult::Created(fr)
                        } else if existing.quantity != order.quantity {
                            let ghost st0 = self.order_store;
                            self.order_store.set_quantity(index, order.quantity);
                            proof {
                                let st1 = self.order_store;
                                assert(st1.order_of(order.id) == order) by {
                                    st0.lemma_live_order(order.id);
                                }
                                // the record change touches no queue shape
                                assert forall|id2: u128| #[trigger] st1.has_id(id2) && id2
                                    != order.id implies st1.order_of(id2) == st0.order_of(id2) by {
                                    st0.lemma_live_order(id2);
                                    st0.lemma_live_order(order.id);
                                    if st0.slot_of(id2) == index {
                                        assert(st0.slots()[st0.slot_of(id2) as int].id == id2);
                                        assert(st0.slots()[index as int].id == order.id);
                                        assert(false);
                                    }
                                }
                                assert(side_ok(st1, self.bids(), Side::Bid)) by {
                                    Self::lemma_side_ok_requantified(
                                        st0,
                                        st1,
                                        self.bids(),
                                        Side::Bid,
                                        index,
                                        order.id,
                                    );
                                }
                                assert(side_ok(st1, self.asks(), Side::Ask)) by {
                                    Self::lemma_side_ok_requantified(
                                        st0,
                                        st1,
                                        self.asks(),
                                        Side::Ask,
                                        index,
                                        order.id,
                                    );
                                }
                                assert forall|id2: u128| #[trigger] st1.has_id(
                                    id2,
                                ) implies book_contains_slot(
                                    self.side_levels(st1.order_of(id2).side),
                                    st1.order_of(id2).price,
                                    st1.slot_of(id2),
                                ) by {
                                    assert(st0.has_id(id2));
                                    assert(st1.order_of(id2).price == st0.order_of(id2).price
                                        && st1.order_of(id2).side == st0.order_of(id2).side) by {
                                        if id2 != order.id {
                                            st0.lemma_live_order(id2);
                                            st0.lemma_live_order(order.id);
                                            if st0.slot_of(id2) == index {
                                                assert(st0.slots()[st0.slot_of(id2) as int].id
                                                    == id2);
                                                assert(st0.slots()[index as int].id == order.id);
                                                assert(false);
                                            }
                                        }
                                    }
                                    assert(book_contains_slot(
                                        old(self).side_levels(st0.order_of(id2).side),
                                        st0.order_of(id2).price,
                                        st0.slot_of(id2),
                                    ));
                                }
                                // the books and tops are structurally untouched
                                assert(self.tops_ok());
                                assert(self.non_crossing());
                                // totals move by exactly the quantity difference
                                let w = choose|w: int|
                                    0 <= w < self.bids().len() && (
                                    #[trigger] self.bids()[w]).price == existing.price
                                        && self.bids()[w].queue@.contains(index);
                                assert(book_contains_slot(self.bids(), existing.price, index))
                                    by {
                                    st0.lemma_live_order(order.id);
                                }
                                assert(self.bids() =~= self.bids().update(w, self.bids()[w]));
                                lemma_side_qty_update_two(
                                    st0,
                                    st1,
                                    self.bids(),
                                    w,
                                    self.bids()[w],
                                );
                                Self::lemma_queue_qty_set(st0, st1, self.bids()[w].queue@, index);
                                lemma_side_qty_congruence(st1, st0, self.asks());
                            }
                            ModifyResult::Modified(order.id)
                        } else {
                            ModifyResult::Failed
                        }
                    },
                }
            },
        }
    }

    /// Modifies a resting ask. An unknown id, a stored order on the other
    /// side, or a request changing nothing fails and leaves the book as it
    /// was. An equal-price request updates the quantity in place, keeping
    /// the order's queue position. A price change removes the order and
    /// places it anew, exactly as a cancel followed by a limit placement:
    /// it loses its queue position and may itself match.
    #[verifier::rlimit(100)]
    pub fn modify_limit_ask_order(&mut self, order: LimitOrder) -> (r: ModifyResult)
        requires
            old(self).wf(),
            limit_order_wf(order),
            order.side == Side::Ask,
        ensures
            final(self).wf(),
            final(self).same_config(*old(self)),
            !(old(self).store().has_id(order.id) && old(self).store().order_of(order.id).side
                == Side::Ask) ==> r == ModifyResult::Failed && *final(self) == *old(self),
            old(self).store().has_id(order.id) && old(self).store().order_of(order.id).side
                == Side::Ask ==> ({
                let existing = old(self).store().order_of(order.id);
                &&& (existing.price == order.price && existing.quantity == order.quantity ==> r
                    == ModifyResult::Failed && *final(self) == *old(self))
                &&& (existing.price == order.price && existing.quantity != order.quantity ==> {
                    &&& r == ModifyResult::Modified(order.id)
                    &&& final(self).store().order_of(order.id) == order
                    &&& final(self).asks() == old(self).asks()
                    &&& final(self).bids() == old(self).bids()
                    &&& forall|id2: u128|
                        #[trigger] old(self).store().has_id(id2) && id2 != order.id ==> final(self).store().has_id(id2) && final(self).store().order_of(id2) == old(self).store().order_of(id2)
                    &&& final(self).total_resting() == old(self).total_resting()
                        - existing.quantity + order.quantity
                })
                &&& (existing.price != order.price ==> ({
                    let cq = crossable_qty(
                        old(self).store(),
                        old(self).bids(),
                        Side::Ask,
                        order.price,
                    );
                    let rem: u64 = if cq >= order.quantity {
                        0u64
                    } else {
                        (order.quantity - cq) as u64
                    };
                    &&& (r matches ModifyResult::Created(fr) && {
                        &&& (rem == order.quantity ==> fr == FillResult::Created(order))
                        &&& (0 < rem < order.quantity ==> (fr matches FillResult::PartiallyFilled(res, fills) && res == (LimitOrder { quantity: rem, ..order }) && fills_qty(fills@) == order.quantity - rem))
                        &&& (rem == 0 ==> (fr matches FillResult::Filled(fills) && fills_qty(
                            fills@,
                        ) == order.quantity))
                    })
                    &&& (rem > 0 ==> final(self).store().has_id(order.id) && final(self).store().order_of(order.id) == (LimitOrder { quantity: rem, ..order }))
                    &&& (forall|id2: u128|
                        #[trigger] old(self).store().has_id(id2) && id2 != order.id && (old(self).store().order_of(id2).side == Side::Ask || old(self).store().order_of(id2).price < order.price) ==> final(self).store().has_id(id2) && final(self).store().order_of(id2) == old(self).store().order_of(id2))
                    &&& (forall|id2: u128|
                        #[trigger] final(self).store().has_id(id2) && id2 != order.id ==> old(self).store().has_id(id2))
                    &&& final(self).total_resting() == old(self).total_resting()
                        - existing.quantity + 2 * rem - order.quantity
                }))
            }),
    {
        let got = self.order_store.get(order.id);
        match got {
            None => ModifyResult::Failed,
            Some((existing, index)) => {
                match existing.side {
                    Side::Bid => ModifyResult::Failed,
                    Side::Ask => {
                        if existing.price != order.price {
                            let ghost st0 = self.order_store;
                            let _ = self.remove_resting(order.id);
                            proof {
                                let st1 = self.order_store;
                                assert(self.bids() == old(self).bids());
                                assert forall|j: int, k: int|
                                    0 <= j < self.bids().len() && 0 <= k < (
                                    #[trigger] self.bids()[j]).queue@.len() implies st1.slots()[(
                                #[trigger] self.bids()[j].queue@[k]) as int] == st0.slots()[
                                self.bids()[j].queue@[k] as int] by {
                                    assert(queue_ok(
                                        st0,
                                        self.bids()[j].queue@,
                                        self.bids()[j].price,
                                        Side::Bid,
                                    ));
                                    let sl = self.bids()[j].queue@[k];
                                    assert(slot_ok(st0, sl, self.bids()[j].price, Side::Bid));
                                    let sid = st0.slots()[sl as int].id;
                                    assert(st0.has_id(sid) && st0.slot_of(sid) == sl);
                                    if sid == order.id {
                                        assert(st0.order_of(sid) == st0.slots()[sl as int]);
                                        assert(st0.order_of(sid).side == Side::Bid);
                                        assert(st0.order_of(order.id) == existing);
                                        assert(false);
                                    }
                                    assert(sid != order.id);
                                    assert(st1.has_id(sid));
                                    assert(st1.order_of(sid) == st0.order_of(sid));
                                    st1.lemma_live_order(sid);
                                    assert(st1.slot_of(sid) == sl);
                                    assert(st1.slots()[sl as int] == st1.order_of(sid));
                                }
                                lemma_crossable_congruence(
                                    st1,
                                    st0,
                                    self.bids(),
                                    Side::Ask,
                                    order.price,
                                );
                                assert(self.non_crossing()) by {
                                    assert forall|i: int, j: int|
                                        0 <= i < self.asks().len() && 0 <= j < self.bids().len()
                                            && (#[trigger] self.asks()[i]).queue@.len() > 0 && (
                                        #[trigger] self.bids()[j]).queue@.len() > 0 implies
                                        self.bids()[j].price < self.asks()[i].price by {
                                        assert(old(self).asks()[i].queue@.len() > 0);
                                        assert(self.asks()[i].price == old(self).asks()[i].price);
                                    }
                                }
                            }
                            let ghost mid_book = *self;
                            let fr = self.limit_ask_order(order);
                            proof {
                                assert forall|id2: u128|
                                    #[trigger] old(self).store().has_id(id2) && id2 != order.id
                                        && (old(self).store().order_of(id2).side == Side::Ask
                                        || old(self).store().order_of(id2).price
                                        < order.price) implies self.order_store.has_id(id2)
                                    && self.order_store.order_of(id2) == old(self).store().order_of(id2) by {
                                    assert(mid_book.store().has_id(id2) && mid_book.store().order_of(id2) == old(self).store().order_of(id2));
                                }
                                assert forall|id2: u128|
                                    #[trigger] self.order_store.has_id(id2) && id2
                                        != order.id implies old(self).store().has_id(id2) by {
                                    assert(mid_book.store().has_id(id2));
                                }
                            }
                            ModifyResult::Created(fr)
                        } else if existing.quantity != order.quantity {
                            let ghost st0 = self.order_store;
                            self.order_store.set_quantity(index, order.quantity);
                            proof {
                                let st1 = self.order_store;
                                assert(st1.order_of(order.id) == order) by {
                                    st0.lemma_live_order(order.id);
                                }
                                // the record change touches no queue shape
                                assert forall|id2: u128| #[trigger] st1.has_id(id2) && id2
                                    != order.id implies st1.order_of(id2) == st0.order_of(id2) by {
                                    st0.lemma_live_order(id2);
                                    st0.lemma_live_order(order.id);
                                    if st0.slot_of(id2) == index {
                                        assert(st0.slots()[st0.slot_of(id2) as int].id == id2);
                                        assert(st0.slots()[index as int].id == order.id);
                                        assert(false);
                                    }
                                }
                                assert(side_ok(st1, self.asks(), Side::Ask)) by {
                                    Self::lemma_side_ok_requantified(
                                        st0,
                                        st1,
                                        self.asks(),
                                        Side::Ask,
                                        index,
                                        order.id,
                                    );
                                }
                                assert(side_ok(st1, self.bids(), Side::Bid)) by {
                                    Self::lemma_side_ok_requantified(
                                        st0,
                                        st1,
                                        self.bids(),
                                        Side::Bid,
                                        index,
                                        order.id,
                                    );
                                }
                                assert forall|id2: u128| #[trigger] st1.has_id(
                                    id2,
                                ) implies book_contains_slot(
                                    self.side_levels(st1.order_of(id2).side),
                                    st1.order_of(id2).price,
                                    st1.slot_of(id2),
                                ) by {
                                    assert(st0.has_id(id2));
                                    assert(st1.order_of(id2).price == st0.order_of(id2).price
                                        && st1.order_of(id2).side == st0.order_of(id2).side) by {
                                        if id2 != order.id {
                                            st0.lemma_live_order(id2);
                                            st0.lemma_live_order(order.id);
                                            if st0.slot_of(id2) == index {
                                                assert(st0.slots()[st0.slot_of(id2) as int].id
                                                    == id2);
                                                assert(st0.slots()[index as int].id == order.id);
                                                assert(false);
                                            }
                                        }
                                    }
                                    assert(book_contains_slot(
                                        old(self).side_levels(st0.order_of(id2).side),
                                        st0.order_of(id2).price,
                                        st0.slot_of(id2),
                                    ));
                                }
                                // the books and tops are structurally untouched
                                assert(self.tops_ok());
                                assert(self.non_crossing());
                                // totals move by exactly the quantity difference
                                let w = choose|w: int|
                                    0 <= w < self.asks().len() && (
                                    #[trigger] self.asks()[w]).price == existing.price
                                        && self.asks()[w].queue@.contains(index);
                                assert(book_contains_slot(self.asks(), existing.price, index))
                                    by {
                                    st0.lemma_live_order(order.id);
                                }
                                assert(self.asks() =~= self.asks().update(w, self.asks()[w]));
                                lemma_side_qty_update_two(
                                    st0,
                                    st1,
                                    self.asks(),
                                    w,
                                    self.asks()[w],
                                );
                                Self::lemma_queue_qty_set(st0, st1, self.asks()[w].queue@, index);
                                lemma_side_qty_congruence(st1, st0, self.bids());
                            }
                            ModifyResult::Modified(order.id)
                        } else {
                            ModifyResult::Failed
                        }
                    },
                }
            },
        }
    }

    /// A side whose queues are untouched stays well formed when one live
    /// record merely changes its positive quantity.
    proof fn lemma_side_ok_requantified(
        st0: Store,
        st1: Store,
        levels: Seq<PriceLevel>,
        s: Side,
        slot: usize,
        sid: u128,
    )
        requires
            st0.wf(),
            side_ok(st0, levels, s),
            st0.has_id(sid),
            st0.slot_of(sid) == slot,
            st1.slots().len() == st0.slots().len(),
            forall|x: int|
                #![trigger st1.slots()[x]]
                0 <= x < st0.slots().len() && x != slot as int ==> st1.slots()[x] == st0.slots()[x],
            st1.slots()[slot as int].id == st0.slots()[slot as int].id,
            st1.slots()[slot as int].price == st0.slots()[slot as int].price,
            st1.slots()[slot as int].side == st0.slots()[slot as int].side,
            st1.slots()[slot as int].quantity > 0,
            st1.id_map() == st0.id_map(),
        ensures
            side_ok(st1, levels, s),
    {
        assert forall|i: int| 0 <= i < levels.len() implies (#[trigger] levels[i]).price > 0
            && queue_ok(st1, levels[i].queue@, levels[i].price, s) by {
            assert(queue_ok(st0, levels[i].queue@, levels[i].price, s));
            assert forall|k: int| 0 <= k < levels[i].queue@.len() implies slot_ok(
                st1,
                #[trigger] levels[i].queue@[k],
                levels[i].price,
                s,
            ) by {
                assert(slot_ok(st0, levels[i].queue@[k], levels[i].price, s));
            }
        }
    }


    /// Applies one operation to the book: the single entry point. A limit
    /// placement never fails; a market order fails exactly when the
    /// opposing side holds nothing; modify and cancel fail exactly when
    /// their targets are missing or nothing would change, each with its
    /// message. After every call the engine invariant holds: the tops
    /// match the books, and the book does not cross.
    #[verifier::rlimit(100)]
    #[verifier::spinoff_prover]
    pub fn execute(&mut self, operation: Operation) -> (r: ExecutionResult)
        requires
            old(self).wf(),
            operation_wf(operation),
            match operation {
                Operation::Limit(o) => !old(self).store().has_id(o.id),
                Operation::Market(o) => !old(self).store().has_id(o.id),
                Operation::Modify(_) => true,
                Operation::Cancel(_) => true,
            },
        ensures
            final(self).wf(),
            final(self).same_config(*old(self)),
            match operation {
                Operation::Limit(o) => (r matches ExecutionResult::Executed(fr)
                    && limit_outcome_ok(*old(self), *final(self), o, fr)),
                Operation::Market(o) => {
                    let empty_opposite = match o.side {
                        Side::Bid => old(self).spec_min_ask() is None,
                        Side::Ask => old(self).spec_max_bid() is None,
                    };
                    &&& (empty_opposite ==> (r matches ExecutionResult::Failed(m) && m@
                        == "placed market order on empty book"@ && *final(self) == *old(self)))
                    &&& (!empty_opposite ==> (r matches ExecutionResult::Executed(fr)
                        && market_outcome_ok(*old(self), *final(self), o, fr)))
                },
                Operation::Modify(o) => {
                    let known = old(self).store().has_id(o.id) && old(self).store().order_of(
                        o.id,
                    ).side == o.side;
                    let existing = old(self).store().order_of(o.id);
                    let failed = !known || (existing.price == o.price && existing.quantity
                        == o.quantity);
                    &&& (failed ==> (r matches ExecutionResult::Failed(m) && m@
                        == "no modification occurred"@ && *final(self) == *old(self)))
                    &&& (!failed ==> (r matches ExecutionResult::Modified(mr)
                        && modify_outcome_ok(*old(self), *final(self), o, mr) && !(mr
                        matches ModifyResult::Failed)))
                },
                Operation::Cancel(id) => {
                    &&& (!old(self).store().has_id(id) ==> (r matches ExecutionResult::Failed(m)
                        && m@ == "order not found"@ && *final(self) == *old(self)))
                    &&& (old(self).store().has_id(id) ==> r == ExecutionResult::Cancelled(id)
                        && cancel_outcome_ok(*old(self), *final(self), id))
                },
            },
    {
        match operation {
            Operation::Limit(order) => match order.side {
                Side::Bid => {
                    let fr = self.limit_bid_order(order);
                    proof {
                        let cq = crossable_qty(
                            old(self).store(),
                            old(self).asks(),
                            Side::Bid,
                            order.price,
                        );
                        let rem: u64 = if cq >= order.quantity {
                            0u64
                        } else {
                            (order.quantity - cq) as u64
                        };
                        if rem > 0 {
                            assert forall|p: u64|
                                #![trigger queue_at(self.side_levels(order.side), p)]
                                #![trigger queue_at(old(self).side_levels(order.side), p)]
                                p != order.price implies queue_at(
                                self.side_levels(order.side),
                                p,
                            ) == queue_at(old(self).side_levels(order.side), p) && (has_level(
                                self.side_levels(order.side),
                                p,
                            ) <==> has_level(old(self).side_levels(order.side), p)) by {
                                assert(queue_at(self.bids(), p) == queue_at(old(self).bids(), p)
                                    && (has_level(self.bids(), p) <==> has_level(
                                    old(self).bids(),
                                    p,
                                )));
                            }
                        }
                        assert(limit_outcome_ok(*old(self), *self, order, fr));
                    }
                    ExecutionResult::Executed(fr)
                },
                Side::Ask => {
                    let fr = self.limit_ask_order(order);
                    proof {
                        let cq = crossable_qty(
                            old(self).store(),
                            old(self).bids(),
                            Side::Ask,
                            order.price,
                        );
                        let rem: u64 = if cq >= order.quantity {
                            0u64
                        } else {
                            (order.quantity - cq) as u64
                        };
                        if rem > 0 {
                            assert forall|p: u64|
                                #![trigger queue_at(self.side_levels(order.side), p)]
                                #![trigger queue_at(old(self).side_levels(order.side), p)]
                                p != order.price implies queue_at(
                                self.side_levels(order.side),
                                p,
                            ) == queue_at(old(self).side_levels(order.side), p) && (has_level(
                                self.side_levels(order.side),
                                p,
                            ) <==> has_level(old(self).side_levels(order.side), p)) by {
                                assert(queue_at(self.asks(), p) == queue_at(old(self).asks(), p)
                                    && (has_level(self.asks(), p) <==> has_level(
                                    old(self).asks(),
                                    p,
                                )));
                            }
                        }
                        assert(limit_outcome_ok(*old(self), *self, order, fr));
                    }
                    ExecutionResult::Executed(fr)
                },
            },
            Operation::Market(order) => match order.side {
                Side::Bid => {
                    let result = self.market_bid_order(order);
                    match result {
                        FillResult::Failed => ExecutionResult::Failed(
                            "placed market order on empty book".to_string(),
                        ),
                        _ => ExecutionResult::Executed(result),
                    }
                },
                Side::Ask => {
                    let result = self.market_ask_order(order);
                    match result {
                        FillResult::Failed => ExecutionResult::Failed(
                            "placed market order on empty book".to_string(),
                        ),
                        _ => ExecutionResult::Executed(result),
                    }
                },
            },
            Operation::Modify(order) => {
                let result = match order.side {
                    Side::Bid => self.modify_limit_buy_order(order),
                    Side::Ask => self.modify_limit_ask_order(order),
                };
                match result {
                    ModifyResult::Failed => ExecutionResult::Failed(
                        "no modification occurred".to_string(),
                    ),
                    _ => ExecutionResult::Modified(result),
                }
            },
            Operation::Cancel(id) => {
                let result = self.cancel_order(id);
                match result {
                    None => ExecutionResult::Failed("order not found".to_string()),
                    Some(found) => ExecutionResult::Cancelled(found),
                }
            },
        }
    }


    /// Sums the open quantity resting in one queue.
    fn sum_queue(queue: &Vec<usize>, store: &Store) -> (r: u64)
        requires
            forall|k: int| 0 <= k < queue@.len() ==> (#[trigger] queue@[k]) < store.slots().len(),
            queue_qty(*store, queue@) <= u64::MAX,
        ensures
            r == queue_qty(*store, queue@),
    {
        let mut sum: u64 = 0;
        let mut k: usize = 0;
        while k < queue.len()
            invariant
                k <= queue@.len(),
                sum == queue_qty(*store, queue@.take(k as int)),
                forall|m: int| 0 <= m < queue@.len() ==> (#[trigger] queue@[m])
                    < store.slots().len(),
                queue_qty(*store, queue@) <= u64::MAX,
            decreases queue@.len() - k,
        {
            proof {
                lemma_queue_qty_take_step(*store, queue@, k as int);
                lemma_queue_qty_take_bound(*store, queue@, k as int + 1);
                lemma_queue_qty_nonneg(*store, queue@.take(k as int));
            }
            sum = sum + store.index(queue[k]).quantity;
            k += 1;
        }
        proof {
            assert(queue@.take(queue@.len() as int) =~= queue@);
        }
        sum
    }


    /// The highest-priced `levels` non-empty levels of one side — the top
    /// of the bid book — listed lowest price first.
    #[verifier::loop_isolation(false)]
    fn get_top_order_levels(levels: usize, book: &BookSide, store: &Store) -> (r: Vec<Level>)
        requires
            forall|i: int|
                0 <= i < book.levels@.len() ==> queue_ok(
                    *store,
                    (#[trigger] book.levels@[i]).queue@,
                    book.levels@[i].price,
                    Side::Bid,
                ) || queue_ok(
                    *store,
                    book.levels@[i].queue@,
                    book.levels@[i].price,
                    Side::Ask,
                ),
            forall|i: int|
                0 <= i < book.levels@.len() ==> queue_qty(
                    *store,
                    (#[trigger] book.levels@[i]).queue@,
                ) <= u64::MAX,
        ensures
            r@ == depth_levels_top(*store, book.levels@, levels as int),
    {
        let ghost lv = book.levels@;
        let mut r: Vec<Level> = Vec::new();
        let mut j: usize = book.levels.len();
        proof {
            assert(lv.take(lv.len() as int) =~= lv);
            assert(depth_levels_top(*store, lv, levels as int) =~= depth_levels_top(
                *store,
                lv.take(j as int),
                levels - r@.len(),
            ) + r@);
        }
        while j > 0 && r.len() < levels
            invariant
                j <= lv.len(),
                r@.len() <= levels,
                depth_levels_top(*store, lv, levels as int) == depth_levels_top(
                    *store,
                    lv.take(j as int),
                    levels - r@.len(),
                ) + r@,
            decreases j,
        {
            let ghost r0 = r@;
            proof {
                assert(lv.take(j as int).drop_last() =~= lv.take(j - 1));
                assert(lv.take(j as int).last() == lv[j - 1]);
            }
            if book.levels[j - 1].queue.len() > 0 {
                proof {
                    assert(queue_ok(*store, lv[j - 1].queue@, lv[j - 1].price, Side::Bid)
                        || queue_ok(*store, lv[j - 1].queue@, lv[j - 1].price, Side::Ask));
                    assert forall|k: int| 0 <= k < lv[j - 1].queue@.len() implies (
                    #[trigger] lv[j - 1].queue@[k]) < store.slots().len() by {
                        assert(slot_ok(*store, lv[j - 1].queue@[k], lv[j - 1].price, Side::Bid)
                            || slot_ok(*store, lv[j - 1].queue@[k], lv[j - 1].price, Side::Ask));
                    }
                }
                let quantity = Self::sum_queue(&book.levels[j - 1].queue, store);
                r.insert(0, Level { price: book.levels[j - 1].price, quantity });
                proof {
                    assert(r@ =~= seq![Level { price: lv[j - 1].price, quantity: quantity }] + r0);
                    assert(depth_levels_top(*store, lv.take(j - 1), levels - r@.len()) + r@
                        =~= (depth_levels_top(*store, lv.take(j - 1), levels - r@.len()) + seq![
                        Level { price: lv[j - 1].price, quantity: quantity },
                    ]) + r0);
                }
            }
            j -= 1;
        }
        proof {
            if j == 0 {
                assert(lv.take(0) =~= Seq::<PriceLevel>::empty());
                assert(depth_levels_top(*store, lv.take(0), levels - r@.len())
                    =~= Seq::<Level>::empty());
            } else {
                assert(depth_levels_top(*store, lv.take(j as int), levels - r@.len())
                    =~= Seq::<Level>::empty());
            }
            assert(depth_levels_top(*store, lv, levels as int) =~= r@);
        }
        r
    }

    /// The first `levels` non-empty price levels of one side, lowest price
    /// first, each with its aggregated resting quantity.
    #[verifier::loop_isolation(false)]
    fn get_order_levels(levels: usize, book: &BookSide, store: &Store) -> (r: Vec<Level>)
        requires
            forall|i: int|
                0 <= i < book.levels@.len() ==> queue_ok(
                    *store,
                    (#[trigger] book.levels@[i]).queue@,
                    book.levels@[i].price,
                    Side::Bid,
                ) || queue_ok(
                    *store,
                    book.levels@[i].queue@,
                    book.levels@[i].price,
                    Side::Ask,
                ),
            forall|i: int|
                0 <= i < book.levels@.len() ==> queue_qty(
                    *store,
                    (#[trigger] book.levels@[i]).queue@,
                ) <= u64::MAX,
        ensures
            r@ == depth_levels(*store, book.levels@, levels as int),
    {
        let ghost lv = book.levels@;
        let mut r: Vec<Level> = Vec::new();
        let mut i: usize = 0;
        proof {
            assert(lv.skip(0) =~= lv);
            assert(Seq::<Level>::empty() + depth_levels(*store, lv, levels as int)
                =~= depth_levels(*store, lv, levels as int));
        }
        while i < book.levels.len() && r.len() < levels
            invariant
                i <= lv.len(),
                r@.len() <= levels,
                depth_levels(*store, lv, levels as int) == r@ + depth_levels(
                    *store,
                    lv.skip(i as int),
                    levels - r@.len(),
                ),
            decreases lv.len() - i,
        {
            let ghost r0 = r@;
            proof {
                assert(lv.skip(i as int)[0] == lv[i as int]);
                assert(lv.skip(i as int).skip(1) =~= lv.skip(i as int + 1));
            }
            if book.levels[i].queue.len() > 0 {
                proof {
                    assert(queue_ok(*store, lv[i as int].queue@, lv[i as int].price, Side::Bid)
                        || queue_ok(*store, lv[i as int].queue@, lv[i as int].price, Side::Ask));
                    assert forall|k: int| 0 <= k < lv[i as int].queue@.len() implies (
                    #[trigger] lv[i as int].queue@[k]) < store.slots().len() by {
                        assert(slot_ok(*store, lv[i as int].queue@[k], lv[i as int].price, Side::Bid)
                            || slot_ok(
                            *store,
                            lv[i as int].queue@[k],
                            lv[i as int].price,
                            Side::Ask,
                        ));
                    }
                }
                let quantity = Self::sum_queue(&book.levels[i].queue, store);
                r.push(Level { price: book.levels[i].price, quantity });
                proof {
                    assert(r@ =~= r0 + seq![
                        Level { price: lv[i as int].price, quantity: quantity },
                    ]);
                    assert(r@ + depth_levels(*store, lv.skip(i as int + 1), levels - r@.len())
                        =~= r0 + (seq![
                        Level { price: lv[i as int].price, quantity: quantity },
                    ] + depth_levels(*store, lv.skip(i as int + 1), levels - r@.len())));
                }
            }
            i += 1;
        }
        proof {
            if i as int == lv.len() {
                assert(lv.skip(i as int) =~= Seq::<PriceLevel>::empty());
                assert(r@ + depth_levels(*store, lv.skip(i as int), levels - r@.len()) =~= r@);
            } else {
                assert(depth_levels(*store, lv.skip(i as int), levels - r@.len())
                    =~= Seq::<Level>::empty());
                assert(r@ + depth_levels(*store, lv.skip(i as int), levels - r@.len()) =~= r@);
            }
        }
        r
    }

    /// The book `levels` levels deep on each side: the best `levels`
    /// non-empty price levels of each side — the highest-priced bids, the
    /// lowest-priced asks — each side listed ascending by price with its
    /// aggregated quantities.
    pub fn depth(&self, levels: usize) -> (r: Depth)
        requires
            self.wf(),
            forall|i: int|
                0 <= i < self.bids().len() ==> queue_qty(
                    self.store(),
                    (#[trigger] self.bids()[i]).queue@,
                ) <= u64::MAX,
            forall|i: int|
                0 <= i < self.asks().len() ==> queue_qty(
                    self.store(),
                    (#[trigger] self.asks()[i]).queue@,
                ) <= u64::MAX,
        ensures
            r.levels == levels,
            r.bids@ == depth_levels_top(self.store(), self.bids(), levels as int),
            r.asks@ == depth_levels(self.store(), self.asks(), levels as int),
    {
        Depth {
            levels,
            bids: Self::get_top_order_levels(levels, &self.bid_side_book, &self.order_store),
            asks: Self::get_order_levels(levels, &self.ask_side_book, &self.order_store),
        }
    }


    /// Takes one level into a running quote: the taker pays the level's
    /// price for what the level can give, capped by what the taker still
    /// wants.
    fn process_price(
        amount_spent: &mut u128,
        remaining_quantity: &mut u64,
        price: u64,
        orders: &Vec<usize>,
        store: &Store,
    )
        requires
            forall|k: int| 0 <= k < orders@.len() ==> (#[trigger] orders@[k]) < store.slots().len(),
            queue_qty(*store, orders@) <= u64::MAX,
            ({
                let avail = queue_qty(*store, orders@);
                let used: int = if avail <= *old(remaining_quantity) {
                    avail
                } else {
                    *old(remaining_quantity) as int
                };
                *old(amount_spent) + (price as int) * used <= u128::MAX
            }),
        ensures
            ({
                let avail = queue_qty(*store, orders@);
                if avail <= *old(remaining_quantity) {
                    *final(amount_spent) == *old(amount_spent) + (price as int) * avail && *final(remaining_quantity) == *old(remaining_quantity) - avail
                } else {
                    *final(amount_spent) == *old(amount_spent) + (price as int) * (*old(remaining_quantity) as int) && *final(remaining_quantity) == 0
                }
            }),
    {
        let total_quantity = Self::sum_queue(orders, store);
        if total_quantity <= *remaining_quantity {
            proof {
                lemma_queue_qty_nonneg(*store, orders@);
                assert((price as int) * (total_quantity as int) >= 0) by (nonlinear_arith)
                    requires
                        price >= 0,
                        total_quantity >= 0,
                {}
            }
            *amount_spent = *amount_spent + (price as u128) * (total_quantity as u128);
            *remaining_quantity = *remaining_quantity - total_quantity;
        } else {
            proof {
                assert((price as int) * (*remaining_quantity as int) <= (price as int) * (
                total_quantity as int) && (price as int) * (*remaining_quantity as int) >= 0)
                    by (nonlinear_arith)
                    requires
                        price >= 0,
                        0 <= *remaining_quantity <= total_quantity,
                {}
            }
            *amount_spent = *amount_spent + (price as u128) * (*remaining_quantity as u128);
            *remaining_quantity = 0;
        }
    }

    /// Shapes the quote from what the walk spent and what is left: nothing
    /// taken converts to a limit at the opposing top, everything taken
    /// quotes the volume-weighted average over the full quantity, and a
    /// part quotes it over the filled part.
    fn process_remaining_quantity(
        amount_spent: u128,
        remaining_quantity: u64,
        original_quantity: u64,
        top_price: u64,
    ) -> (r: RfqStatus)
        requires
            original_quantity > 0,
            remaining_quantity <= original_quantity,
            amount_spent as int <= (u64::MAX as int) * (original_quantity - remaining_quantity),
        ensures
            remaining_quantity == original_quantity ==> r == RfqStatus::ConvertToLimit(
                top_price,
                original_quantity,
            ),
            remaining_quantity == 0 ==> r == RfqStatus::CompleteFill(
                ((amount_spent as int) / (original_quantity as int)) as u64,
            ),
            0 < remaining_quantity < original_quantity ==> r
                == RfqStatus::PartialFillAndLimitPlaced(
                ((amount_spent as int) / ((original_quantity - remaining_quantity) as int)) as u64,
                remaining_quantity,
            ),
    {
        if remaining_quantity == original_quantity {
            RfqStatus::ConvertToLimit(top_price, original_quantity)
        } else if remaining_quantity == 0 {
            proof {
                assert((amount_spent as int) / (original_quantity as int) <= u64::MAX as int)
                    by (nonlinear_arith)
                    requires
                        0 <= amount_spent as int <= (u64::MAX as int) * (original_quantity as int),
                        original_quantity > 0,
                {}
            }
            RfqStatus::CompleteFill((amount_spent / (original_quantity as u128)) as u64)
        } else {
            let filled = original_quantity - remaining_quantity;
            proof {
                assert((amount_spent as int) / (filled as int) <= u64::MAX as int)
                    by (nonlinear_arith)
                    requires
                        0 <= amount_spent as int <= (u64::MAX as int) * (filled as int),
                        filled > 0,
                {}
            }
            RfqStatus::PartialFillAndLimitPlaced(
                (amount_spent / (filled as u128)) as u64,
                remaining_quantity,
            )
        }
    }

    /// Prices a hypothetical market order against the book without
    /// touching it: a non-binding quote over the current resting levels,
    /// best prices first. The book, the store and the tops stay exactly as
    /// they are: the receiver is only read.
    #[verifier::loop_isolation(false)]
    #[verifier::rlimit(100)]
    pub fn request_for_quote(&self, market_order: MarketOrder) -> (r: RfqStatus)
        requires
            self.wf(),
            forall|i: int|
                0 <= i < self.bids().len() ==> queue_qty(
                    self.store(),
                    (#[trigger] self.bids()[i]).queue@,
                ) <= u64::MAX,
            forall|i: int|
                0 <= i < self.asks().len() ==> queue_qty(
                    self.store(),
                    (#[trigger] self.asks()[i]).queue@,
                ) <= u64::MAX,
        ensures
            market_order.quantity == 0 ==> r == RfqStatus::NotPossible,
            market_order.quantity > 0 && market_order.side == Side::Bid ==> match self.spec_min_ask() {
                None => r == RfqStatus::NotPossible,
                Some(top) => ({
                    let qty = market_order.quantity as int;
                    let spent = rfq_spent(self.store(), self.asks(), qty);
                    let left = rfq_left(self.store(), self.asks(), qty);
                    &&& (left == qty ==> r == RfqStatus::ConvertToLimit(
                        top,
                        market_order.quantity,
                    ))
                    &&& (left == 0 ==> r == RfqStatus::CompleteFill((spent / qty) as u64))
                    &&& (0 < left < qty ==> r == RfqStatus::PartialFillAndLimitPlaced(
                        (spent / (qty - left)) as u64,
                        left as u64,
                    ))
                }),
            },
            market_order.quantity > 0 && market_order.side == Side::Ask ==> match self.spec_max_bid() {
                None => r == RfqStatus::NotPossible,
                Some(top) => ({
                    let qty = market_order.quantity as int;
                    let spent = rfq_spent(self.store(), rev_levels(self.bids()), qty);
                    let left = rfq_left(self.store(), rev_levels(self.bids()), qty);
                    &&& (left == qty ==> r == RfqStatus::ConvertToLimit(
                        top,
                        market_order.quantity,
                    ))
                    &&& (left == 0 ==> r == RfqStatus::CompleteFill((spent / qty) as u64))
                    &&& (0 < left < qty ==> r == RfqStatus::PartialFillAndLimitPlaced(
                        (spent / (qty - left)) as u64,
                        left as u64,
                    ))
                }),
            },
    {
        let quantity = market_order.quantity;
        if quantity == 0 {
            return RfqStatus::NotPossible;
        }
        match market_order.side {
            Side::Bid => {
                let min_ask = match self.min_ask {
                    Some(ask) => ask,
                    None => { return RfqStatus::NotPossible },
                };
                let ghost lv = self.asks();
                let ghost st = self.store();
                let mut remaining_quantity = quantity;
                let mut amount_spent: u128 = 0;
                let mut i: usize = 0;
                proof {
                    assert(lv.skip(0) =~= lv);
                    lemma_rfq_bounds(st, lv, quantity as int);
                }
                while i < self.ask_side_book.levels.len() && remaining_quantity > 0
                    invariant
                        i <= lv.len(),
                        remaining_quantity <= quantity,
                        amount_spent as int <= (u64::MAX as int) * (quantity
                            - remaining_quantity),
                        rfq_spent(st, lv, quantity as int) == amount_spent + rfq_spent(
                            st,
                            lv.skip(i as int),
                            remaining_quantity as int,
                        ),
                        rfq_left(st, lv, quantity as int) == rfq_left(
                            st,
                            lv.skip(i as int),
                            remaining_quantity as int,
                        ),
                    decreases lv.len() - i,
                {
                    proof {
                        assert(lv.skip(i as int)[0] == lv[i as int]);
                        assert(lv.skip(i as int).skip(1) =~= lv.skip(i as int + 1));
                        assert(queue_ok(st, lv[i as int].queue@, lv[i as int].price, Side::Ask));
                        assert forall|k: int| 0 <= k < lv[i as int].queue@.len() implies (
                        #[trigger] lv[i as int].queue@[k]) < st.slots().len() by {
                            assert(slot_ok(
                                st,
                                lv[i as int].queue@[k],
                                lv[i as int].price,
                                Side::Ask,
                            ));
                        }
                        lemma_rfq_bounds(st, lv.skip(i as int), remaining_quantity as int);
                        lemma_queue_qty_nonneg(st, lv[i as int].queue@);
                        assert(0xffffffffffffffff as int * (0xffffffffffffffff as int)
                            <= 0xffffffffffffffffffffffffffffffff as int) by (nonlinear_arith);
                        assert(({
                            let avail = queue_qty(st, lv[i as int].queue@);
                            let used: int = if avail <= remaining_quantity {
                                avail
                            } else {
                                remaining_quantity as int
                            };
                            amount_spent + (lv[i as int].price as int) * used <= u128::MAX
                        })) by (nonlinear_arith)
                            requires
                                0 <= amount_spent as int <= (u64::MAX as int) * (quantity
                                    - remaining_quantity),
                                0 <= quantity <= u64::MAX,
                                0 <= remaining_quantity <= quantity,
                                0 <= lv[i as int].price <= u64::MAX,
                                0 <= queue_qty(st, lv[i as int].queue@),
                                (u64::MAX as int) * (u64::MAX as int) <= u128::MAX as int,
                        {}
                        assert((lv[i as int].price as int) * queue_qty(st, lv[i as int].queue@)
                            <= (u64::MAX as int) * (u64::MAX as int)) by (nonlinear_arith)
                            requires
                                0 <= lv[i as int].price <= u64::MAX,
                                0 <= queue_qty(st, lv[i as int].queue@) <= u64::MAX,
                        {}
                        assert((lv[i as int].price as int) * (remaining_quantity as int) >= 0
                            && (lv[i as int].price as int) * (remaining_quantity as int) <= (
                        u64::MAX as int) * (remaining_quantity as int)) by (nonlinear_arith)
                            requires
                                0 <= lv[i as int].price <= u64::MAX,
                                remaining_quantity >= 0,
                        {}
                        assert((lv[i as int].price as int) * queue_qty(st, lv[i as int].queue@)
                            <= (u64::MAX as int) * queue_qty(st, lv[i as int].queue@))
                            by (nonlinear_arith)
                            requires
                                0 <= lv[i as int].price <= u64::MAX,
                                queue_qty(st, lv[i as int].queue@) >= 0,
                        {}
                    }
                    let ghost rq_b = remaining_quantity;
                    let ghost sp_b = amount_spent;
                    Self::process_price(
                        &mut amount_spent,
                        &mut remaining_quantity,
                        self.ask_side_book.levels[i].price,
                        &self.ask_side_book.levels[i].queue,
                        &self.order_store,
                    );
                    proof {
                        let avail = queue_qty(st, lv[i as int].queue@);
                        assert((u64::MAX as int) * (quantity - rq_b) + (u64::MAX as int) * (rq_b
                            - remaining_quantity) == (u64::MAX as int) * (quantity
                            - remaining_quantity)) by (nonlinear_arith);
                        if avail <= rq_b {
                            assert((lv[i as int].price as int) * avail <= (u64::MAX as int) * (
                            rq_b - remaining_quantity)) by (nonlinear_arith)
                                requires
                                    0 <= lv[i as int].price <= u64::MAX,
                                    avail == rq_b - remaining_quantity,
                                    avail >= 0,
                            {}
                        } else {
                            assert((lv[i as int].price as int) * (rq_b as int) <= (
                            u64::MAX as int) * (rq_b - remaining_quantity)) by (nonlinear_arith)
                                requires
                                    0 <= lv[i as int].price <= u64::MAX,
                                    remaining_quantity == 0,
                                    rq_b >= 0,
                            {}
                        }
                    }
                    i += 1;
                }
                proof {
                    if remaining_quantity > 0 {
                        assert(lv.skip(i as int) =~= Seq::<PriceLevel>::empty());
                    }
                    lemma_rfq_bounds(st, lv, quantity as int);
                }
                Self::process_remaining_quantity(
                    amount_spent,
                    remaining_quantity,
                    quantity,
                    min_ask,
                )
            },
            Side::Ask => {
                let max_bid = match self.max_bid {
                    Some(bid) => bid,
                    None => { return RfqStatus::NotPossible },
                };
                let ghost lv = rev_levels(self.bids());
                let ghost st = self.store();
                let mut remaining_quantity = quantity;
                let mut amount_spent: u128 = 0;
                let mut i: usize = 0;
                proof {
                    assert(lv.skip(0) =~= lv);
                    lemma_rfq_bounds(st, lv, quantity as int);
                }
                while i < self.bid_side_book.levels.len() && remaining_quantity > 0
                    invariant
                        i <= lv.len(),
                        lv.len() == self.bids().len(),
                        remaining_quantity <= quantity,
                        amount_spent as int <= (u64::MAX as int) * (quantity
                            - remaining_quantity),
                        rfq_spent(st, lv, quantity as int) == amount_spent + rfq_spent(
                            st,
                            lv.skip(i as int),
                            remaining_quantity as int,
                        ),
                        rfq_left(st, lv, quantity as int) == rfq_left(
                            st,
                            lv.skip(i as int),
                            remaining_quantity as int,
                        ),
                    decreases lv.len() - i,
                {
                    let li = self.bid_side_book.levels.len() - 1 - i;
                    proof {
                        assert(lv[i as int] == self.bids()[li as int]);
                        assert(lv.skip(i as int)[0] == lv[i as int]);
                        assert(lv.skip(i as int).skip(1) =~= lv.skip(i as int + 1));
                        assert(queue_ok(st, lv[i as int].queue@, lv[i as int].price, Side::Bid));
                        assert forall|k: int| 0 <= k < lv[i as int].queue@.len() implies (
                        #[trigger] lv[i as int].queue@[k]) < st.slots().len() by {
                            assert(slot_ok(
                                st,
                                lv[i as int].queue@[k],
                                lv[i as int].price,
                                Side::Bid,
                            ));
                        }
                        lemma_rfq_bounds(st, lv.skip(i as int), remaining_quantity as int);
                        lemma_queue_qty_nonneg(st, lv[i as int].queue@);
                        assert(0xffffffffffffffff as int * (0xffffffffffffffff as int)
                            <= 0xffffffffffffffffffffffffffffffff as int) by (nonlinear_arith);
                        assert(({
                            let avail = queue_qty(st, lv[i as int].queue@);
                            let used: int = if avail <= remaining_quantity {
                                avail
                            } else {
                                remaining_quantity as int
                            };
                            amount_spent + (lv[i as int].price as int) * used <= u128::MAX
                        })) by (nonlinear_arith)
                            requires
                                0 <= amount_spent as int <= (u64::MAX as int) * (quantity
                                    - remaining_quantity),
                                0 <= quantity <= u64::MAX,
                                0 <= remaining_quantity <= quantity,
                                0 <= lv[i as int].price <= u64::MAX,
                                0 <= queue_qty(st, lv[i as int].queue@),
                                (u64::MAX as int) * (u64::MAX as int) <= u128::MAX as int,
                        {}
                    }
                    let ghost rq_b = remaining_quantity;
                    Self::process_price(
                        &mut amount_spent,
                        &mut remaining_quantity,
                        self.bid_side_book.levels[li].price,
                        &self.bid_side_book.levels[li].queue,
                        &self.order_store,
                    );
                    proof {
                        let avail = queue_qty(st, lv[i as int].queue@);
                        assert((u64::MAX as int) * (quantity - rq_b) + (u64::MAX as int) * (rq_b
                            - remaining_quantity) == (u64::MAX as int) * (quantity
                            - remaining_quantity)) by (nonlinear_arith);
                        if avail <= rq_b {
                            assert((lv[i as int].price as int) * avail <= (u64::MAX as int) * (
                            rq_b - remaining_quantity)) by (nonlinear_arith)
                                requires
                                    0 <= lv[i as int].price <= u64::MAX,
                                    avail == rq_b - remaining_quantity,
                                    avail >= 0,
                            {}
                        } else {
                            assert((lv[i as int].price as int) * (rq_b as int) <= (
                            u64::MAX as int) * (rq_b - remaining_quantity)) by (nonlinear_arith)
                                requires
                                    0 <= lv[i as int].price <= u64::MAX,
                                    remaining_quantity == 0,
                                    rq_b >= 0,
                            {}
                        }
                    }
                    i += 1;
                }
                proof {
                    if remaining_quantity > 0 {
                        assert(lv.skip(i as int) =~= Seq::<PriceLevel>::empty());
                    }
                    lemma_rfq_bounds(st, lv, quantity as int);
                }
                Self::process_remaining_quantity(
                    amount_spent,
                    remaining_quantity,
                    quantity,
                    max_bid,
                )
            },
        }
    }


    /// A copy that reads the same everywhere: same records, same levels,
    /// same tops. A well-formed book clones to a well-formed book.
    #[verifier::rlimit(100)]
    pub fn clone_book(&self) -> (r: OrderBook)
        ensures
            r.store().slots() == self.store().slots(),
            r.store().id_map() == self.store().id_map(),
            r.bids().len() == self.bids().len(),
            forall|i: int|
                0 <= i < self.bids().len() ==> (#[trigger] r.bids()[i]).price
                    == self.bids()[i].price && r.bids()[i].queue@ == self.bids()[i].queue@,
            r.asks().len() == self.asks().len(),
            forall|i: int|
                0 <= i < self.asks().len() ==> (#[trigger] r.asks()[i]).price
                    == self.asks()[i].price && r.asks()[i].queue@ == self.asks()[i].queue@,
            r.spec_max_bid() == self.spec_max_bid(),
            r.spec_min_ask() == self.spec_min_ask(),
            r.spec_id() == self.spec_id(),
            r.spec_queue_capacity() == self.spec_queue_capacity(),
            r.spec_last_trade_price() == self.spec_last_trade_price(),
            self.wf() ==> r.wf(),
    {
        let r = OrderBook {
            id: self.id,
            max_bid: self.max_bid,
            min_ask: self.min_ask,
            bid_side_book: self.bid_side_book.clone_side(),
            ask_side_book: self.ask_side_book.clone_side(),
            queue_capacity: self.queue_capacity,
            order_store: self.order_store.clone(),
            last_trade_price: self.last_trade_price,
        };
        proof {
            if self.wf() {
                assert(side_ok(r.store(), r.bids(), Side::Bid)) by {
                    Self::lemma_side_ok_same_view(self.store(), r.store(), self.bids(), r.bids(), Side::Bid);
                }
                assert(side_ok(r.store(), r.asks(), Side::Ask)) by {
                    Self::lemma_side_ok_same_view(self.store(), r.store(), self.asks(), r.asks(), Side::Ask);
                }
                assert forall|id2: u128| #[trigger] r.store().has_id(id2) implies book_contains_slot(
                    r.side_levels(r.store().order_of(id2).side),
                    r.store().order_of(id2).price,
                    r.store().slot_of(id2),
                ) by {
                    assert(self.store().has_id(id2));
                    assert(r.store().order_of(id2) == self.store().order_of(id2));
                    let o2 = self.store().order_of(id2);
                    let s2 = self.store().slot_of(id2);
                    assert(book_contains_slot(self.side_levels(o2.side), o2.price, s2));
                    let lv0 = self.side_levels(o2.side);
                    let lv1 = r.side_levels(o2.side);
                    let j = choose|j: int|
                        0 <= j < lv0.len() && (#[trigger] lv0[j]).price == o2.price && lv0[
                            j
                        ].queue@.contains(s2);
                    assert(lv1[j].price == o2.price && lv1[j].queue@ == lv0[j].queue@);
                    assert(book_contains_slot(lv1, o2.price, s2));
                }
                assert(r.tops_ok()) by {
                    match self.spec_max_bid() {
                        None => {},
                        Some(p) => {
                            let j = choose|j: int|
                                0 <= j < self.bids().len() && (#[trigger] self.bids()[j]).price
                                    == p && self.bids()[j].queue@.len() > 0;
                            assert(r.bids()[j].price == p && r.bids()[j].queue@.len() > 0);
                        },
                    }
                    match self.spec_min_ask() {
                        None => {},
                        Some(p) => {
                            let j = choose|j: int|
                                0 <= j < self.asks().len() && (#[trigger] self.asks()[j]).price
                                    == p && self.asks()[j].queue@.len() > 0;
                            assert(r.asks()[j].price == p && r.asks()[j].queue@.len() > 0);
                        },
                    }
                }
            }
        }
        r
    }

    /// Well-formedness of a side carries over to a store and levels that
    /// read the same.
    proof fn lemma_side_ok_same_view(
        st0: Store,
        st1: Store,
        lv0: Seq<PriceLevel>,
        lv1: Seq<PriceLevel>,
        s: Side,
    )
        requires
            side_ok(st0, lv0, s),
            st1.slots() == st0.slots(),
            st1.id_map() == st0.id_map(),
            lv1.len() == lv0.len(),
            forall|i: int|
                0 <= i < lv0.len() ==> (#[trigger] lv1[i]).price == lv0[i].price && lv1[i].queue@
                    == lv0[i].queue@,
        ensures
            side_ok(st1, lv1, s),
    {
        assert forall|i: int| 0 <= i < lv1.len() implies (#[trigger] lv1[i]).price > 0 && queue_ok(
            st1,
            lv1[i].queue@,
            lv1[i].price,
            s,
        ) by {
            assert(queue_ok(st0, lv0[i].queue@, lv0[i].price, s));
            assert forall|k: int| 0 <= k < lv1[i].queue@.len() implies slot_ok(
                st1,
                #[trigger] lv1[i].queue@[k],
                lv1[i].price,
                s,
            ) by {
                assert(slot_ok(st0, lv0[i].queue@[k], lv0[i].price, s));
            }
        }
        assert(prices_sorted(lv1)) by {
            assert forall|a: int, b: int| 0 <= a < b < lv1.len() implies (#[trigger] lv1[a]).price
                < (#[trigger] lv1[b]).price by {
                assert(lv0[a].price == lv1[a].price && lv0[b].price == lv1[b].price);
            }
        }
    }

    /// Applies one operation and shapes its outcome as a wire event,
    /// stamped with the given symbol and timestamp: the state moves exactly
    /// as under `execute`, and the returned event is the wire form of that
    /// call's outcome.
    pub fn execute_proto(&mut self, operation: Operation, ticker: String, timestamp: u128) -> (r:
        crate::protobuf::ProtoBufResult)
        requires
            old(self).wf(),
            operation_wf(operation),
            match operation {
                Operation::Limit(o) => !old(self).store().has_id(o.id),
                Operation::Market(o) => !old(self).store().has_id(o.id),
                Operation::Modify(_) => true,
                Operation::Cancel(_) => true,
            },
        ensures
            final(self).wf(),
            final(self).same_config(*old(self)),
            match operation {
                Operation::Limit(o) => exists|fr: FillResult|
                    limit_outcome_ok(*old(self), *final(self), o, fr)
                        && crate::protobuf::wire_of_fill(fr, r, ticker@, timestamp),
                Operation::Market(o) => {
                    let empty_opposite = match o.side {
                        Side::Bid => old(self).spec_min_ask() is None,
                        Side::Ask => old(self).spec_max_bid() is None,
                    };
                    &&& (empty_opposite ==> (r matches crate::protobuf::ProtoBufResult::Failed(g)
                        && g.message@ == "placed market order on empty book"@ && g.symbol@
                        == ticker@ && *final(self) == *old(self)))
                    &&& (!empty_opposite ==> exists|fr: FillResult|
                        market_outcome_ok(*old(self), *final(self), o, fr)
                            && crate::protobuf::wire_of_fill(fr, r, ticker@, timestamp))
                },
                Operation::Modify(o) => {
                    let known = old(self).store().has_id(o.id) && old(self).store().order_of(
                        o.id,
                    ).side == o.side;
                    let existing = old(self).store().order_of(o.id);
                    let failed = !known || (existing.price == o.price && existing.quantity
                        == o.quantity);
                    &&& (failed ==> (r matches crate::protobuf::ProtoBufResult::Failed(g)
                        && g.message@ == "no modification occurred"@ && g.symbol@ == ticker@
                        && *final(self) == *old(self)))
                    &&& (!failed ==> exists|mr: ModifyResult|
                        modify_outcome_ok(*old(self), *final(self), o, mr) && !(mr
                            matches ModifyResult::Failed) && crate::protobuf::wire_of_modify(
                            mr,
                            r,
                            ticker@,
                            timestamp,
                        ))
                },
                Operation::Cancel(id) => {
                    &&& (!old(self).store().has_id(id) ==> (r
                        matches crate::protobuf::ProtoBufResult::Failed(g) && g.message@
                        == "order not found"@ && g.symbol@ == ticker@ && *final(self) == *old(self)))
                    &&& (old(self).store().has_id(id) ==> (r
                        matches crate::protobuf::ProtoBufResult::CancelModify(c) && c.status == 4
                        && crate::protobuf::spec_u128_bytes_ok(id, c.order_id@) && c.symbol@
                        == ticker@ && cancel_outcome_ok(*old(self), *final(self), id)))
                },
            },
    {
        let result = self.execute(operation);
        let ghost er = result;
        let r = result.to_protobuf(ticker, timestamp);
        proof {
            match operation {
                Operation::Limit(o) => {
                    let fr0 = er->Executed_0;
                    assert(limit_outcome_ok(*old(self), *self, o, fr0)
                        && crate::protobuf::wire_of_fill(fr0, r, ticker@, timestamp));
                },
                Operation::Market(o) => {
                    let empty_opposite = match o.side {
                        Side::Bid => old(self).spec_min_ask() is None,
                        Side::Ask => old(self).spec_max_bid() is None,
                    };
                    if !empty_opposite {
                        let fr0 = er->Executed_0;
                        assert(market_outcome_ok(*old(self), *self, o, fr0)
                            && crate::protobuf::wire_of_fill(fr0, r, ticker@, timestamp));
                    }
                },
                Operation::Modify(o) => {
                    let known = old(self).store().has_id(o.id) && old(self).store().order_of(
                        o.id,
                    ).side == o.side;
                    let existing = old(self).store().order_of(o.id);
                    let failed = !known || (existing.price == o.price && existing.quantity
                        == o.quantity);
                    if !failed {
                        let mr0 = er->Modified_0;
                        assert(modify_outcome_ok(*old(self), *self, o, mr0) && !(mr0
                            matches ModifyResult::Failed) && crate::protobuf::wire_of_modify(
                            mr0,
                            r,
                            ticker@,
                            timestamp,
                        ));
                    }
                },
                Operation::Cancel(_) => {},
            }
        }
        r
    }

    /// Arena integrity: the live ids are exactly the ids resting in the
    /// books. Every live order's slot stands in the queue of its price on
    /// its side, and every slot standing in any queue belongs to a live
    /// order whose record carries that queue's price and side.
    pub proof fn lemma_arena_integrity(book: OrderBook)
        requires
            book.wf(),
        ensures
            forall|id: u128|
                #[trigger] book.store().has_id(id) ==> book_contains_slot(
                    book.side_levels(book.store().order_of(id).side),
                    book.store().order_of(id).price,
                    book.store().slot_of(id),
                ),
            forall|i: int, k: int|
                0 <= i < book.bids().len() && 0 <= k < (#[trigger] book.bids()[i]).queue@.len()
                    ==> book.store().slot_live((#[trigger] book.bids()[i].queue@[k]) as int)
                    && book.store().slots()[book.bids()[i].queue@[k] as int].price == book.bids()[
                    i
                ].price && book.store().slots()[book.bids()[i].queue@[k] as int].side == Side::Bid,
            forall|i: int, k: int|
                0 <= i < book.asks().len() && 0 <= k < (#[trigger] book.asks()[i]).queue@.len()
                    ==> book.store().slot_live((#[trigger] book.asks()[i].queue@[k]) as int)
                    && book.store().slots()[book.asks()[i].queue@[k] as int].price == book.asks()[
                    i
                ].price && book.store().slots()[book.asks()[i].queue@[k] as int].side == Side::Ask,
    {
        assert forall|i: int, k: int|
            0 <= i < book.bids().len() && 0 <= k < (#[trigger] book.bids()[i]).queue@.len() implies
            book.store().slot_live((#[trigger] book.bids()[i].queue@[k]) as int) && book.store().slots()[book.bids()[i].queue@[k] as int].price == book.bids()[i].price && book.store().slots()[book.bids()[i].queue@[k] as int].side == Side::Bid by {
            assert(queue_ok(
                book.store(),
                book.bids()[i].queue@,
                book.bids()[i].price,
                Side::Bid,
            ));
            assert(slot_ok(book.store(), book.bids()[i].queue@[k], book.bids()[i].price, Side::Bid));
        }
        assert forall|i: int, k: int|
            0 <= i < book.asks().len() && 0 <= k < (#[trigger] book.asks()[i]).queue@.len() implies
            book.store().slot_live((#[trigger] book.asks()[i].queue@[k]) as int) && book.store().slots()[book.asks()[i].queue@[k] as int].price == book.asks()[i].price && book.store().slots()[book.asks()[i].queue@[k] as int].side == Side::Ask by {
            assert(queue_ok(
                book.store(),
                book.asks()[i].queue@,
                book.asks()[i].price,
                Side::Ask,
            ));
            assert(slot_ok(book.store(), book.asks()[i].queue@[k], book.asks()[i].price, Side::Ask));
        }
    }


    /// The order store, for read access from outside.
    pub fn order_store(&self) -> (r: &Store)
        ensures
            *r == self.store(),
    {
        &self.order_store
    }

    /// The total quantity resting at one price on one side; zero when no
    /// level carries the price.
    pub fn get_total_quantity_at_price(&self, side: Side, price: u64) -> (r: u64)
        requires
            self.wf(),
            forall|i: int|
                0 <= i < self.side_levels(side).len() ==> queue_qty(
                    self.store(),
                    (#[trigger] self.side_levels(side)[i]).queue@,
                ) <= u64::MAX,
        ensures
            r == queue_qty(self.store(), queue_at(self.side_levels(side), price)),
    {
        let found = match side {
            Side::Bid => self.bid_side_book.find_level(price),
            Side::Ask => self.ask_side_book.find_level(price),
        };
        match found {
            None => {
                proof {
                    if has_level(self.side_levels(side), price) {
                        let w = choose|w: int|
                            0 <= w < self.side_levels(side).len() && (#[trigger] self.side_levels(
                                side,
                            )[w]).price == price;
                        match side {
                            Side::Bid => {
                                assert(self.bid_side_book.has_price(price));
                            },
                            Side::Ask => {
                                assert(self.ask_side_book.has_price(price));
                            },
                        }
                        assert(false);
                    }
                    assert(queue_at(self.side_levels(side), price) =~= Seq::<usize>::empty());
                }
                0u64
            },
            Some(li) => {
                proof {
                    lemma_queue_at(self.side_levels(side), li as int);
                    assert(queue_ok(
                        self.store(),
                        self.side_levels(side)[li as int].queue@,
                        self.side_levels(side)[li as int].price,
                        side,
                    ));
                    assert forall|k: int|
                        0 <= k < self.side_levels(side)[li as int].queue@.len() implies (
                    #[trigger] self.side_levels(side)[li as int].queue@[k])
                        < self.store().slots().len() by {
                        assert(slot_ok(
                            self.store(),
                            self.side_levels(side)[li as int].queue@[k],
                            self.side_levels(side)[li as int].price,
                            side,
                        ));
                    }
                }
                match side {
                    Side::Bid => Self::sum_queue(
                        &self.bid_side_book.levels[li].queue,
                        &self.order_store,
                    ),
                    Side::Ask => Self::sum_queue(
                        &self.ask_side_book.levels[li].queue,
                        &self.order_store,
                    ),
                }
            },
        }
    }

}

impl Default for OrderBook {
    /// An engine with the default capacities: queues of ten, a store of
    /// ten thousand slots.
    fn default() -> (r: Self)
        ensures
            r.wf(),
            r.spec_max_bid() is None,
            r.spec_min_ask() is None,
            r.bids().len() == 0,
            r.asks().len() == 0,
            r.store().id_map() == Map::<u128, usize>::empty(),
            r.total_resting() == 0,
            r.spec_last_trade_price() == 0,
    {
        OrderBook::new(10, 10000)
    }
}

} // verus!
