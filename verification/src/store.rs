//! The order store: an arena of order records with a free list of
//! recyclable slots and an id index mapping order ids to slots.
//!
//! A slot is *live* when the id index maps the id of the record in it to
//! that slot; live records have strictly positive price and quantity. A
//! slot on the free list holds a record whose quantity is zero, so live
//! and free slots never meet.

use vstd::prelude::*;

use crate::models::LimitOrder;

verus! {

/// One entry of the id index: an order id and the arena slot holding it.
#[derive(Debug, Copy, Clone, PartialEq, Eq, Structural)]
pub struct IdSlot {
    /// The order id.
    pub id: u128,
    /// The arena slot that holds the order.
    pub slot: usize,
}

/// The id index read as a mathematical map from order id to slot; later
/// entries win, though a well-formed store never repeats an id.
pub open spec fn map_of(s: Seq<IdSlot>) -> Map<u128, usize>
    decreases s.len(),
{
    if s.len() == 0 {
        Map::empty()
    } else {
        map_of(s.drop_last()).insert(s.last().id, s.last().slot)
    }
}

/// No two entries of the index name the same id.
pub open spec fn unique_ids(s: Seq<IdSlot>) -> bool {
    forall|i: int, j: int| 0 <= i < j < s.len() ==> (#[trigger] s[i]).id != (#[trigger] s[j]).id
}

/// No two entries of the index name the same slot.
pub open spec fn unique_slots(s: Seq<IdSlot>) -> bool {
    forall|i: int, j: int| 0 <= i < j < s.len() ==> (#[trigger] s[i]).slot != (#[trigger] s[j]).slot
}

/// An id is in the map of an index exactly when some entry names it.
proof fn lemma_map_of_dom(s: Seq<IdSlot>)
    ensures
        forall|id: u128|
            map_of(s).dom().contains(id) <==> exists|i: int|
                0 <= i < s.len() && (#[trigger] s[i]).id == id,
    decreases s.len(),
{
    if s.len() > 0 {
        let t = s.drop_last();
        lemma_map_of_dom(t);
        assert forall|id: u128| map_of(s).dom().contains(id) implies exists|i: int|
            0 <= i < s.len() && (#[trigger] s[i]).id == id by {
            if id == s.last().id {
                assert(s[s.len() - 1].id == id);
            } else {
                assert(map_of(s) == map_of(t).insert(s.last().id, s.last().slot));
                assert(map_of(t).dom().contains(id));
                let i = choose|i: int| 0 <= i < t.len() && (#[trigger] t[i]).id == id;
                assert(t[i] == s[i]);
                assert(s[i].id == id);
            }
        }
        assert forall|id: u128|
            (exists|i: int| 0 <= i < s.len() && (#[trigger] s[i]).id == id) implies map_of(
            s,
        ).dom().contains(id) by {
            let i = choose|i: int| 0 <= i < s.len() && (#[trigger] s[i]).id == id;
            if i < s.len() - 1 {
                assert(t[i].id == id);
            }
        }
    }
}

/// Dropping the last entry keeps ids unique.
proof fn lemma_unique_ids_drop_last(s: Seq<IdSlot>)
    requires
        unique_ids(s),
        s.len() > 0,
    ensures
        unique_ids(s.drop_last()),
{
    let t = s.drop_last();
    assert forall|i: int, j: int| 0 <= i < j < t.len() implies (#[trigger] t[i]).id != (
    #[trigger] t[j]).id by {
        assert(s[i] == t[i] && s[j] == t[j]);
    }
}

/// In an index without repeated ids, the map agrees with every entry.
proof fn lemma_map_of_entry(s: Seq<IdSlot>, i: int)
    requires
        unique_ids(s),
        0 <= i < s.len(),
    ensures
        map_of(s).dom().contains(s[i].id),
        map_of(s)[s[i].id] == s[i].slot,
    decreases s.len(),
{
    if i < s.len() - 1 {
        let t = s.drop_last();
        lemma_unique_ids_drop_last(s);
        assert(t[i] == s[i]);
        lemma_map_of_entry(t, i);
        assert(s.last().id != s[i].id);
    }
}

/// Appending an entry inserts it into the map.
proof fn lemma_map_of_push(s: Seq<IdSlot>, e: IdSlot)
    ensures
        map_of(s.push(e)) == map_of(s).insert(e.id, e.slot),
{
    assert(s.push(e).drop_last() =~= s);
    assert(s.push(e).last() == e);
}

/// Removing the entry at position `i` removes exactly its id from the map.
proof fn lemma_map_of_remove(s: Seq<IdSlot>, i: int)
    requires
        unique_ids(s),
        0 <= i < s.len(),
    ensures
        map_of(s.remove(i)) =~= map_of(s).remove(s[i].id),
    decreases s.len(),
{
    let t = s.drop_last();
    lemma_unique_ids_drop_last(s);
    if i == s.len() - 1 {
        assert(s.remove(i) =~= t);
        lemma_map_of_dom(t);
        assert(!map_of(t).dom().contains(s[i].id));
        assert(map_of(t) =~= map_of(t).insert(s.last().id, s.last().slot).remove(s[i].id));
    } else {
        assert(t[i] == s[i]);
        lemma_map_of_remove(t, i);
        lemma_map_of_push(t.remove(i), s.last());
        assert(s.remove(i) =~= t.remove(i).push(s.last()));
        assert(s.last().id != s[i].id);
        assert(map_of(t.remove(i)).insert(s.last().id, s.last().slot) =~= map_of(t).remove(
            s[i].id,
        ).insert(s.last().id, s.last().slot));
        assert(map_of(t).remove(s[i].id).insert(s.last().id, s.last().slot) =~= map_of(t).insert(
            s.last().id,
            s.last().slot,
        ).remove(s[i].id));
    }
}

/// The arena of order records, its free list, and the id index.
#[derive(Debug)]
pub struct Store {
    /// The order records, addressed by slot number.
    orders: Vec<LimitOrder>,
    /// Slots free to be reused, in the order they were freed; reuse pops
    /// from the back.
    free_indexes: Vec<usize>,
    /// The id index: maps each live order id to its slot. Lookups scan
    /// it linearly; a hashed index would behave the same and is not
    /// needed for correctness.
    id_slots: Vec<IdSlot>,
}

impl Store {
    /// The arena contents, by slot.
    pub closed spec fn slots(self) -> Seq<LimitOrder> {
        self.orders@
    }

    /// The free list.
    pub closed spec fn free(self) -> Seq<usize> {
        self.free_indexes@
    }

    /// The id index as a map from live order id to slot.
    pub closed spec fn id_map(self) -> Map<u128, usize> {
        map_of(self.id_slots@)
    }

    /// Whether an order with this id is live in the store.
    pub open spec fn has_id(self, id: u128) -> bool {
        self.id_map().dom().contains(id)
    }

    /// The slot of the live order with this id.
    pub open spec fn slot_of(self, id: u128) -> usize {
        self.id_map()[id]
    }

    /// The live order with this id.
    pub open spec fn order_of(self, id: u128) -> LimitOrder {
        self.slots()[self.slot_of(id) as int]
    }

    /// Whether this slot holds a live order: the id index maps the id of
    /// the record in it back to the slot.
    pub open spec fn slot_live(self, slot: int) -> bool {
        &&& 0 <= slot < self.slots().len()
        &&& self.has_id(self.slots()[slot].id)
        &&& self.slot_of(self.slots()[slot].id) == slot
    }

    /// Well-formedness: every index entry points at a record carrying its
    /// id with positive price and quantity; ids and slots appear at most
    /// once; free slots are in range, hold quantity zero, and repeat
    /// nowhere.
    pub closed spec fn wf(self) -> bool {
        &&& forall|i: int|
            0 <= i < self.id_slots@.len() ==> {
                let e = (#[trigger] self.id_slots@[i]);
                &&& e.slot < self.orders@.len()
                &&& self.orders@[e.slot as int].id == e.id
                &&& self.orders@[e.slot as int].quantity > 0
                &&& self.orders@[e.slot as int].price > 0
            }
        &&& unique_ids(self.id_slots@)
        &&& unique_slots(self.id_slots@)
        &&& forall|i: int|
            0 <= i < self.free_indexes@.len() ==> {
                let f = (#[trigger] self.free_indexes@[i]);
                &&& f < self.orders@.len()
                &&& self.orders@[f as int].quantity == 0
            }
        &&& forall|i: int, j: int|
            0 <= i < j < self.free_indexes@.len() ==> (#[trigger] self.free_indexes@[i]) != (
            #[trigger] self.free_indexes@[j])
    }

    /// A live order has the fields the id index promises of it.
    pub proof fn lemma_live_order(self, id: u128)
        requires
            self.wf(),
            self.has_id(id),
        ensures
            self.slot_of(id) < self.slots().len(),
            self.order_of(id).id == id,
            self.order_of(id).quantity > 0,
            self.order_of(id).price > 0,
            self.slot_live(self.slot_of(id) as int),
    {
        lemma_map_of_dom(self.id_slots@);
        let i = choose|i: int| 0 <= i < self.id_slots@.len() && (#[trigger] self.id_slots@[i]).id
            == id;
        lemma_map_of_entry(self.id_slots@, i);
    }

    /// Builds a store whose arena holds `capacity` recyclable slots and
    /// whose id index is empty.
    pub fn new(capacity: usize) -> (r: Store)
        ensures
            r.wf(),
            r.id_map() == Map::<u128, usize>::empty(),
            r.slots().len() == capacity,
            r.free() == Seq::new(capacity as nat, |i: int| i as usize),
            forall|i: int| 0 <= i < capacity ==> (#[trigger] r.slots()[i]).quantity == 0,
    {
        let mut orders: Vec<LimitOrder> = Vec::new();
        let mut free_indexes: Vec<usize> = Vec::new();
        let mut index: usize = 0;
        while index < capacity
            invariant
                index <= capacity,
                orders@.len() == index,
                free_indexes@.len() == index,
                forall|i: int| 0 <= i < index ==> (#[trigger] orders@[i]).quantity == 0,
                forall|i: int| 0 <= i < index ==> (#[trigger] free_indexes@[i]) == i,
            decreases capacity - index,
        {
            orders.push(LimitOrder { id: 0, price: 0, quantity: 0, side: crate::models::Side::Bid });
            free_indexes.push(index);
            index += 1;
        }
        Store { orders, free_indexes, id_slots: Vec::new() }
    }

    /// Looks the id up in the index; returns the position of its entry.
    fn find_entry(&self, id: u128) -> (r: Option<usize>)
        ensures
            match r {
                Some(i) => i < self.id_slots@.len() && self.id_slots@[i as int].id == id,
                None => !self.has_id(id),
            },
    {
        let mut i: usize = 0;
        while i < self.id_slots.len()
            invariant
                i <= self.id_slots@.len(),
                forall|k: int| 0 <= k < i ==> (#[trigger] self.id_slots@[k]).id != id,
            decreases self.id_slots@.len() - i,
        {
            if self.id_slots[i].id == id {
                return Some(i);
            }
            i += 1;
        }
        proof {
            lemma_map_of_dom(self.id_slots@);
        }
        None
    }

    /// Returns the live order with this id and its slot, or `None` when
    /// no live order carries the id.
    pub fn get(&self, id: u128) -> (r: Option<(LimitOrder, usize)>)
        requires
            self.wf(),
        ensures
            match r {
                Some((order, slot)) => {
                    &&& self.has_id(id)
                    &&& slot == self.slot_of(id)
                    &&& order == self.order_of(id)
                },
                None => !self.has_id(id),
            },
    {
        match self.find_entry(id) {
            Some(i) => {
                proof {
                    lemma_map_of_entry(self.id_slots@, i as int);
                }
                let slot = self.id_slots[i].slot;
                Some((self.orders[slot], slot))
            },
            None => None,
        }
    }

    /// Returns the record in this slot, live or free.
    pub fn index(&self, slot: usize) -> (r: LimitOrder)
        requires
            slot < self.slots().len(),
        ensures
            r == self.slots()[slot as int],
    {
        self.orders[slot]
    }

    /// The number of slots in the arena.
    pub fn len(&self) -> (r: usize)
        ensures
            r == self.slots().len(),
    {
        self.orders.len()
    }

    /// Overwrites the quantity of the live order in this slot; nothing
    /// else moves.
    pub fn set_quantity(&mut self, slot: usize, quantity: u64)
        requires
            old(self).wf(),
            slot < old(self).slots().len(),
            old(self).slots()[slot as int].quantity > 0,
            quantity > 0,
        ensures
            final(self).wf(),
            final(self).slots() == old(self).slots().update(
                slot as int,
                LimitOrder { quantity, ..old(self).slots()[slot as int] },
            ),
            final(self).free() == old(self).free(),
            final(self).id_map() == old(self).id_map(),
    {
        let order = self.orders[slot];
        self.orders.set(slot, LimitOrder { quantity, ..order });
    }

    /// Stores a fresh order: reuses the last freed slot if one exists,
    /// else appends a new slot; records the id in the index. Returns the
    /// slot used.
    pub fn insert(&mut self, order: LimitOrder) -> (slot: usize)
        requires
            old(self).wf(),
            crate::models::limit_order_wf(order),
            !old(self).has_id(order.id),
        ensures
            final(self).wf(),
            slot < final(self).slots().len(),
            final(self).id_map() == old(self).id_map().insert(order.id, slot),
            final(self).slots()[slot as int] == order,
            if old(self).free().len() > 0 {
                &&& slot == old(self).free().last()
                &&& slot < old(self).slots().len()
                &&& final(self).free() == old(self).free().drop_last()
                &&& final(self).slots() == old(self).slots().update(slot as int, order)
            } else {
                &&& slot == old(self).slots().len()
                &&& final(self).free() == old(self).free()
                &&& final(self).slots() == old(self).slots().push(order)
            },
            !old(self).slot_live(slot as int),
    {
        proof {
            lemma_map_of_dom(self.id_slots@);
        }
        let slot: usize;
        match self.free_indexes.pop() {
            Some(free_slot) => {
                slot = free_slot;
                self.orders.set(slot, order);
            },
            None => {
                slot = self.orders.len();
                self.orders.push(order);
            },
        }
        self.id_slots.push(IdSlot { id: order.id, slot });
        proof {
            lemma_map_of_push(old(self).id_slots@, IdSlot { id: order.id, slot });
            assert forall|i: int|
                0 <= i < old(self).id_slots@.len() implies (#[trigger] old(self).id_slots@[i]).slot
                != slot by {
                if old(self).free().len() > 0 {
                    assert(old(self).orders@[old(self).id_slots@[i].slot as int].quantity > 0);
                }
            }
            if old(self).slot_live(slot as int) {
                let oid = old(self).slots()[slot as int].id;
                let i = choose|i: int|
                    0 <= i < old(self).id_slots@.len() && (#[trigger] old(self).id_slots@[i]).id
                        == oid;
                lemma_map_of_entry(old(self).id_slots@, i);
                assert(old(self).slots()[slot as int].quantity > 0);
                assert(old(self).free()[old(self).free().len() - 1] == slot);
                assert(false);
            }
        }
        slot
    }

    /// Deletes the live order with this id: unmaps it, zeroes the record's
    /// quantity, and frees its slot. Returns whether the id was live.
    pub fn delete(&mut self, id: &u128) -> (r: bool)
        requires
            old(self).wf(),
        ensures
            final(self).wf(),
            r == old(self).has_id(*id),
            !r ==> *final(self) == *old(self),
            r ==> {
                &&& final(self).id_map() == old(self).id_map().remove(*id)
                &&& final(self).slots() == old(self).slots().update(
                    old(self).slot_of(*id) as int,
                    LimitOrder { quantity: 0, ..old(self).order_of(*id) },
                )
                &&& final(self).free() == old(self).free().push(old(self).slot_of(*id))
            },
    {
        match self.find_entry(*id) {
            Some(i) => {
                proof {
                    lemma_map_of_entry(self.id_slots@, i as int);
                    lemma_map_of_remove(self.id_slots@, i as int);
                }
                let slot = self.id_slots[i].slot;
                let order = self.orders[slot];
                self.id_slots.remove(i);
                self.free_indexes.push(slot);
                self.orders.set(slot, LimitOrder { quantity: 0, ..order });
                proof {
                    let olds = old(self).id_slots@;
                    assert forall|a: int, b: int|
                        0 <= a < b < self.id_slots@.len() implies (#[trigger] self.id_slots@[a]).id
                        != (#[trigger] self.id_slots@[b]).id && (
                        #[trigger] self.id_slots@[a]).slot != (#[trigger] self.id_slots@[b]).slot by {
                        let a0 = if a < i as int { a } else { a + 1 };
                        let b0 = if b < i as int { b } else { b + 1 };
                        assert(self.id_slots@[a] == olds[a0] && self.id_slots@[b] == olds[b0]);
                    }
                    assert forall|k: int|
                        0 <= k < self.id_slots@.len() implies (#[trigger] self.id_slots@[k]).slot
                        != slot by {
                        let k0 = if k < i as int { k } else { k + 1 };
                        assert(self.id_slots@[k] == olds[k0]);
                    }
                    assert forall|k: int|
                        0 <= k < old(self).free_indexes@.len() implies (#[trigger] old(
                            self,
                        ).free_indexes@[k]) != slot by {
                        assert(old(self).orders@[old(self).free_indexes@[k] as int].quantity == 0);
                    }
                }
                true
            },
            None => false,
        }
    }
}

impl Clone for Store {
    /// A deep copy: the same arena, free list and id index.
    fn clone(&self) -> (r: Self)
        ensures
            r.slots() == self.slots(),
            r.free() == self.free(),
            r.id_map() == self.id_map(),
            self.wf() ==> r.wf(),
    {
        let mut orders: Vec<LimitOrder> = Vec::new();
        let mut k: usize = 0;
        while k < self.orders.len()
            invariant
                k <= self.orders@.len(),
                orders@ == self.orders@.take(k as int),
            decreases self.orders@.len() - k,
        {
            orders.push(self.orders[k]);
            k += 1;
        }
        let mut free_indexes: Vec<usize> = Vec::new();
        let mut k: usize = 0;
        while k < self.free_indexes.len()
            invariant
                k <= self.free_indexes@.len(),
                free_indexes@ == self.free_indexes@.take(k as int),
            decreases self.free_indexes@.len() - k,
        {
            free_indexes.push(self.free_indexes[k]);
            k += 1;
        }
        let mut id_slots: Vec<IdSlot> = Vec::new();
        let mut k: usize = 0;
        while k < self.id_slots.len()
            invariant
                k <= self.id_slots@.len(),
                id_slots@ == self.id_slots@.take(k as int),
            decreases self.id_slots@.len() - k,
        {
            id_slots.push(self.id_slots[k]);
            k += 1;
        }
        proof {
            assert(orders@ =~= self.orders@);
            assert(free_indexes@ =~= self.free_indexes@);
            assert(id_slots@ =~= self.id_slots@);
        }
        Store { orders, free_indexes, id_slots }
    }
}

} // verus!
