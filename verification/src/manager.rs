//! The double-buffered snapshot managers: a writer-held primary engine and
//! a reader-visible secondary, rotated by copying the primary. The writer
//! touches only the primary, readers only the secondary; the concurrency
//! around the rotation lives outside the library.

use vstd::prelude::*;

use crate::orderbook::OrderBook;

verus! {

/// Two engines read the same everywhere it can be observed.
pub open spec fn books_alike(a: OrderBook, b: OrderBook) -> bool {
    &&& a.store().slots() == b.store().slots()
    &&& a.store().id_map() == b.store().id_map()
    &&& a.bids().len() == b.bids().len()
    &&& forall|i: int|
        0 <= i < b.bids().len() ==> (#[trigger] a.bids()[i]).price == b.bids()[i].price && a.bids()[
            i
        ].queue@ == b.bids()[i].queue@
    &&& a.asks().len() == b.asks().len()
    &&& forall|i: int|
        0 <= i < b.asks().len() ==> (#[trigger] a.asks()[i]).price == b.asks()[i].price && a.asks()[
            i
        ].queue@ == b.asks()[i].queue@
    &&& a.spec_max_bid() == b.spec_max_bid()
    &&& a.spec_min_ask() == b.spec_min_ask()
    &&& a.spec_last_trade_price() == b.spec_last_trade_price()
    &&& a.spec_id() == b.spec_id()
    &&& a.spec_queue_capacity() == b.spec_queue_capacity()
}

/// A snapshot manager over two default engines.
#[derive(Debug)]
pub struct Manager {
    /// The writer's engine.
    primary: OrderBook,
    /// The readers' engine: replaced wholesale on each snapshot, never
    /// mutated.
    secondary: OrderBook,
}

impl Manager {
    /// The writer's engine.
    pub closed spec fn spec_primary(self) -> OrderBook {
        self.primary
    }

    /// The readers' engine.
    pub closed spec fn spec_secondary(self) -> OrderBook {
        self.secondary
    }

    /// Two fresh default engines.
    pub fn new() -> (r: Manager)
        ensures
            r.spec_primary().wf(),
            r.spec_secondary().wf(),
            r.spec_primary().total_resting() == 0,
            r.spec_secondary().total_resting() == 0,
    {
        Manager { primary: OrderBook::default(), secondary: OrderBook::default() }
    }

    /// The writer's handle: exclusive access to the primary.
    pub fn get_primary(&mut self) -> (r: &mut OrderBook)
        ensures
            *r == old(self).spec_primary(),
            final(self).spec_primary() == *final(r),
            final(self).spec_secondary() == old(self).spec_secondary(),
    {
        &mut self.primary
    }

    /// A reader's handle: shared access to the secondary.
    pub fn get_secondary(&self) -> (r: &OrderBook)
        ensures
            *r == self.spec_secondary(),
    {
        &self.secondary
    }

    /// Publishes a copy of the primary as the new secondary; the primary
    /// itself does not move.
    pub fn snapshot(&mut self)
        requires
            old(self).spec_primary().wf(),
        ensures
            final(self).spec_primary() == old(self).spec_primary(),
            final(self).spec_secondary().wf(),
            books_alike(final(self).spec_secondary(), old(self).spec_primary()),
    {
        self.secondary = self.primary.clone_book();
    }
}

impl Default for Manager {
    /// The same two fresh default engines as `new`.
    fn default() -> (r: Self)
        ensures
            r.spec_primary().wf(),
            r.spec_secondary().wf(),
    {
        Manager::new()
    }
}

/// A snapshot manager that also carries the instrument symbol and builds
/// its engines with explicit capacities.
#[derive(Debug)]
pub struct OrderbookManager {
    /// The instrument symbol attached to emitted events.
    symbol: String,
    /// The writer's engine.
    primary: OrderBook,
    /// The readers' engine.
    secondary: OrderBook,
}

impl OrderbookManager {
    /// The writer's engine.
    pub closed spec fn spec_primary(self) -> OrderBook {
        self.primary
    }

    /// The readers' engine.
    pub closed spec fn spec_secondary(self) -> OrderBook {
        self.secondary
    }

    /// The instrument symbol.
    pub closed spec fn spec_symbol(self) -> Seq<char> {
        self.symbol@
    }

    /// Two fresh engines with the given capacities, under one symbol.
    pub fn new(id: String, queue_capacity: usize, store_capacity: usize) -> (r: OrderbookManager)
        ensures
            r.spec_primary().wf(),
            r.spec_secondary().wf(),
            r.spec_symbol() == id@,
            r.spec_primary().total_resting() == 0,
            r.spec_secondary().total_resting() == 0,
    {
        OrderbookManager {
            symbol: id,
            primary: OrderBook::new(queue_capacity, store_capacity),
            secondary: OrderBook::new(queue_capacity, store_capacity),
        }
    }

    /// The instrument symbol.
    pub fn symbol(&self) -> (r: &String)
        ensures
            r@ == self.spec_symbol(),
    {
        &self.symbol
    }

    /// The writer's handle: exclusive access to the primary.
    pub fn get_primary(&mut self) -> (r: &mut OrderBook)
        ensures
            *r == old(self).spec_primary(),
            final(self).spec_primary() == *final(r),
            final(self).spec_secondary() == old(self).spec_secondary(),
            final(self).spec_symbol() == old(self).spec_symbol(),
    {
        &mut self.primary
    }

    /// A reader's handle: shared access to the secondary.
    pub fn get_secondary(&self) -> (r: &OrderBook)
        ensures
            *r == self.spec_secondary(),
    {
        &self.secondary
    }

    /// Publishes a copy of the primary as the new secondary.
    pub fn snapshot(&mut self)
        requires
            old(self).spec_primary().wf(),
        ensures
            final(self).spec_primary() == old(self).spec_primary(),
            final(self).spec_secondary().wf(),
            books_alike(final(self).spec_secondary(), old(self).spec_primary()),
            final(self).spec_symbol() == old(self).spec_symbol(),
    {
        self.secondary = self.primary.clone_book();
    }
}

} // verus!
