//! The logical shape of the events the engine emits: the wire records for
//! created, filled, partially filled, cancelled and failed operations, and
//! the conversions into them. Serialisation itself is not the library's
//! concern; these are plain records.

use vstd::prelude::*;

use crate::models::{
    Depth, ExecutionResult, FillMetaData, FillResult, LimitOrder, ModifyResult, RfqStatus, Side,
};

verus! {

/// Byte `i` of the big-endian form of a 128-bit id or timestamp.
pub open spec fn u128_be_byte(v: u128, i: int) -> u8 {
    ((v >> (((15 - i) * 8) as u128)) & 0xff) as u8
}

/// The sixteen big-endian bytes of a 128-bit id or timestamp.
pub open spec fn spec_u128_bytes_ok(v: u128, r: Seq<u8>) -> bool {
    r.len() == 16 && forall|i: int| 0 <= i < 16 ==> r[i] == u128_be_byte(v, i)
}

/// Writes a 128-bit id or timestamp as sixteen big-endian bytes.
pub fn u128_to_be_bytes(value: u128) -> (r: Vec<u8>)
    ensures
        spec_u128_bytes_ok(value, r@),
{
    let mut r: Vec<u8> = Vec::with_capacity(16);
    let mut i: usize = 0;
    while i < 16
        invariant
            i <= 16,
            r@.len() == i,
            forall|k: int| 0 <= k < i ==> r@[k] == u128_be_byte(value, k),
        decreases 16 - i,
    {
        let shift: u128 = ((15 - i) * 8) as u128;
        r.push(((value >> shift) & 0xff) as u8);
        i += 1;
    }
    r
}

/// A created order on the wire.
#[derive(Debug, Clone)]
pub struct CreateOrder {
    /// The event status code.
    pub status: i32,
    /// The order id, sixteen big-endian bytes.
    pub order_id: Vec<u8>,
    /// The limit price.
    pub price: u64,
    /// The resting quantity.
    pub quantity: u64,
    /// The side code: 0 for bid, 1 for ask.
    pub side: i32,
    /// The instrument symbol.
    pub symbol: String,
    /// The event timestamp, sixteen big-endian bytes of nanoseconds.
    pub timestamp: Vec<u8>,
}

/// One match on the wire.
#[derive(Debug, Clone)]
pub struct FillOrderData {
    /// The taker's order id, sixteen big-endian bytes.
    pub order_id: Vec<u8>,
    /// The maker's order id, sixteen big-endian bytes.
    pub matched_order_id: Vec<u8>,
    /// The taker's side code.
    pub taker_side: i32,
    /// The price matched at.
    pub price: u64,
    /// The quantity matched.
    pub amount: u64,
}

/// A fully filled order on the wire.
#[derive(Debug, Clone)]
pub struct FillOrder {
    /// The event status code.
    pub status: i32,
    /// The matches, front first.
    pub filled_orders: Vec<FillOrderData>,
    /// The instrument symbol.
    pub symbol: String,
    /// The event timestamp, sixteen big-endian bytes.
    pub timestamp: Vec<u8>,
}

/// A partially filled order on the wire: the resting remainder and the
/// matches made.
#[derive(Debug, Clone)]
pub struct PartialFillOrder {
    /// The event status code.
    pub status: i32,
    /// The resting remainder.
    pub partial_create: Option<CreateOrder>,
    /// The matches made.
    pub partial_fills: Option<FillOrder>,
    /// The instrument symbol.
    pub symbol: String,
    /// The event timestamp, sixteen big-endian bytes.
    pub timestamp: Vec<u8>,
}

/// A cancel or modify acknowledgement on the wire.
#[derive(Debug, Clone)]
pub struct CancelModifyOrder {
    /// The event status code: 3 for modify, 4 for cancel.
    pub status: i32,
    /// The order id, sixteen big-endian bytes.
    pub order_id: Vec<u8>,
    /// The instrument symbol.
    pub symbol: String,
    /// The event timestamp, sixteen big-endian bytes.
    pub timestamp: Vec<u8>,
}

/// A failure message on the wire.
#[derive(Debug, Clone)]
pub struct GenericMessage {
    /// The reason.
    pub message: String,
    /// The instrument symbol.
    pub symbol: String,
    /// The event timestamp, sixteen big-endian bytes.
    pub timestamp: Vec<u8>,
}

/// A quote answer on the wire.
#[derive(Debug, Copy, Clone, PartialEq, Eq, Structural)]
pub struct RfqResult {
    /// The quote status code.
    pub status: i32,
    /// The quoted price.
    pub price: u64,
    /// The quoted quantity.
    pub quantity: u64,
}

/// One aggregated level on the wire.
#[derive(Debug, Copy, Clone, PartialEq, Eq, Structural)]
pub struct WireLevel {
    /// The price of the level.
    pub price: u64,
    /// The total resting quantity at it.
    pub quantity: u64,
}

/// A book snapshot on the wire.
#[derive(Debug, Clone)]
pub struct OrderbookData {
    /// The price of the last full fill.
    pub last_trade_price: u64,
    /// The best bid, or zero when none.
    pub max_bid: u64,
    /// The best ask, or the largest price when none.
    pub min_ask: u64,
    /// Aggregated bid levels.
    pub bids: Vec<WireLevel>,
    /// Aggregated ask levels.
    pub asks: Vec<WireLevel>,
}

/// One event of the egress stream.
#[derive(Debug, Clone)]
pub enum ProtoBufResult {
    /// An order was created.
    Create(CreateOrder),
    /// An order was fully filled.
    Fill(FillOrder),
    /// An order was partially filled.
    PartialFill(PartialFillOrder),
    /// An order was cancelled or modified.
    CancelModify(CancelModifyOrder),
    /// The operation failed.
    Failed(GenericMessage),
}

/// A wire creation record carries exactly the order's fields under the
/// given status, symbol and timestamp.
pub open spec fn wire_create_ok(
    c: CreateOrder,
    status: i32,
    o: LimitOrder,
    ticker: Seq<char>,
    ts: u128,
) -> bool {
    &&& c.status == status
    &&& spec_u128_bytes_ok(o.id, c.order_id@)
    &&& c.price == o.price
    &&& c.quantity == o.quantity
    &&& c.side == o.side.spec_code()
    &&& c.symbol@ == ticker
    &&& spec_u128_bytes_ok(ts, c.timestamp@)
}

/// A wire match record carries exactly its fill's fields.
pub open spec fn wire_fill_data_ok(f: FillMetaData, w: FillOrderData) -> bool {
    &&& spec_u128_bytes_ok(f.order_id, w.order_id@)
    &&& spec_u128_bytes_ok(f.matched_order_id, w.matched_order_id@)
    &&& w.taker_side == f.taker_side.spec_code()
    &&& w.price == f.price
    &&& w.amount == f.quantity
}

/// The wire matches encode the fills one for one, in order.
pub open spec fn wire_fills_ok(fills: Seq<FillMetaData>, ws: Seq<FillOrderData>) -> bool {
    ws.len() == fills.len() && forall|i: int|
        0 <= i < fills.len() ==> wire_fill_data_ok(fills[i], #[trigger] ws[i])
}

/// A wire fill record carries its status, symbol, timestamp and matches.
pub open spec fn wire_fill_ok(
    f: FillOrder,
    status: i32,
    fills: Seq<FillMetaData>,
    ticker: Seq<char>,
    ts: u128,
) -> bool {
    &&& f.status == status
    &&& wire_fills_ok(fills, f.filled_orders@)
    &&& f.symbol@ == ticker
    &&& spec_u128_bytes_ok(ts, f.timestamp@)
}

/// The wire form of a placement outcome, variant by variant: creation as
/// status 0, a full fill as status 1, a partial fill as status 2 carrying
/// both the resting remainder and the matches, and a failure message.
pub open spec fn wire_of_fill(
    fr: FillResult,
    r: ProtoBufResult,
    ticker: Seq<char>,
    ts: u128,
) -> bool {
    match fr {
        FillResult::Created(o) => r matches ProtoBufResult::Create(c) && wire_create_ok(
            c,
            0,
            o,
            ticker,
            ts,
        ),
        FillResult::Filled(fills) => r matches ProtoBufResult::Fill(f) && wire_fill_ok(
            f,
            1,
            fills@,
            ticker,
            ts,
        ),
        FillResult::PartiallyFilled(o, fills) => r matches ProtoBufResult::PartialFill(p) && {
            &&& p.status == 2
            &&& p.partial_create matches Some(c) && wire_create_ok(c, 2, o, ticker, ts)
            &&& p.partial_fills matches Some(f) && wire_fill_ok(f, 2, fills@, ticker, ts)
            &&& p.symbol@ == ticker
            &&& spec_u128_bytes_ok(ts, p.timestamp@)
        },
        FillResult::Failed => r matches ProtoBufResult::Failed(g) && g.message@
            == "failed to place order"@ && g.symbol@ == ticker && spec_u128_bytes_ok(
            ts,
            g.timestamp@,
        ),
    }
}

/// The wire form of a modify outcome: a re-placement encodes as its own
/// outcome, an in-place change as a status-3 acknowledgement.
pub open spec fn wire_of_modify(
    mr: ModifyResult,
    r: ProtoBufResult,
    ticker: Seq<char>,
    ts: u128,
) -> bool {
    match mr {
        ModifyResult::Created(fr) => wire_of_fill(fr, r, ticker, ts),
        ModifyResult::Modified(id) => r matches ProtoBufResult::CancelModify(c) && {
            &&& c.status == 3
            &&& spec_u128_bytes_ok(id, c.order_id@)
            &&& c.symbol@ == ticker
            &&& spec_u128_bytes_ok(ts, c.timestamp@)
        },
        ModifyResult::Failed => r matches ProtoBufResult::Failed(g) && g.message@
            == "failed to modify order"@ && g.symbol@ == ticker && spec_u128_bytes_ok(
            ts,
            g.timestamp@,
        ),
    }
}

/// The wire form of an execution outcome: placements and modifies encode
/// as above, a cancel as a status-4 acknowledgement, a failure with its
/// message.
pub open spec fn wire_of_exec(
    er: ExecutionResult,
    r: ProtoBufResult,
    ticker: Seq<char>,
    ts: u128,
) -> bool {
    match er {
        ExecutionResult::Executed(fr) => wire_of_fill(fr, r, ticker, ts),
        ExecutionResult::Modified(mr) => wire_of_modify(mr, r, ticker, ts),
        ExecutionResult::Cancelled(id) => r matches ProtoBufResult::CancelModify(c) && {
            &&& c.status == 4
            &&& spec_u128_bytes_ok(id, c.order_id@)
            &&& c.symbol@ == ticker
            &&& spec_u128_bytes_ok(ts, c.timestamp@)
        },
        ExecutionResult::Failed(m) => r matches ProtoBufResult::Failed(g) && g.message@ == m@
            && g.symbol@ == ticker && spec_u128_bytes_ok(ts, g.timestamp@),
    }
}

impl RfqStatus {
    /// The wire form of a quote: status 0 for a complete fill, 1 for a
    /// partial one, 2 for a conversion to limit, 3 when no quote is
    /// possible.
    pub fn to_protobuf(&self) -> (r: RfqResult)
        ensures
            r == match *self {
                RfqStatus::CompleteFill(price) => RfqResult { status: 0, price, quantity: 0 },
                RfqStatus::PartialFillAndLimitPlaced(price, quantity) => RfqResult {
                    status: 1,
                    price,
                    quantity,
                },
                RfqStatus::ConvertToLimit(price, quantity) => RfqResult {
                    status: 2,
                    price,
                    quantity,
                },
                RfqStatus::NotPossible => RfqResult { status: 3, price: 0, quantity: 0 },
            },
    {
        match self {
            RfqStatus::CompleteFill(price) => RfqResult { status: 0, price: *price, quantity: 0 },
            RfqStatus::PartialFillAndLimitPlaced(price, remaining_quantity) => RfqResult {
                status: 1,
                price: *price,
                quantity: *remaining_quantity,
            },
            RfqStatus::ConvertToLimit(price, quantity) => RfqResult {
                status: 2,
                price: *price,
                quantity: *quantity,
            },
            RfqStatus::NotPossible => RfqResult { status: 3, price: 0, quantity: 0 },
        }
    }
}

/// The wire form of a quote, as a free function for the streaming side.
pub fn rfq_to_proto(rfq_status: RfqStatus) -> (r: RfqResult)
    ensures
        r == match rfq_status {
            RfqStatus::CompleteFill(price) => RfqResult { status: 0, price, quantity: 0 },
            RfqStatus::PartialFillAndLimitPlaced(price, quantity) => RfqResult {
                status: 1,
                price,
                quantity,
            },
            RfqStatus::ConvertToLimit(price, quantity) => RfqResult {
                status: 2,
                price,
                quantity,
            },
            RfqStatus::NotPossible => RfqResult { status: 3, price: 0, quantity: 0 },
        },
{
    rfq_status.to_protobuf()
}

/// A depth view with the book's metadata as one wire snapshot.
pub fn orderbook_data_to_proto(
    last_trade_price: u64,
    max_bid: u64,
    min_ask: u64,
    orderbook_data: Depth,
) -> (r: OrderbookData)
    ensures
        r.last_trade_price == last_trade_price,
        r.max_bid == max_bid,
        r.min_ask == min_ask,
        r.bids@.len() == orderbook_data.bids@.len(),
        forall|i: int|
            0 <= i < orderbook_data.bids@.len() ==> (#[trigger] r.bids@[i]) == (WireLevel {
                price: orderbook_data.bids@[i].price,
                quantity: orderbook_data.bids@[i].quantity,
            }),
        r.asks@.len() == orderbook_data.asks@.len(),
        forall|i: int|
            0 <= i < orderbook_data.asks@.len() ==> (#[trigger] r.asks@[i]) == (WireLevel {
                price: orderbook_data.asks@[i].price,
                quantity: orderbook_data.asks@[i].quantity,
            }),
{
    let mut bids: Vec<WireLevel> = Vec::new();
    let mut i: usize = 0;
    while i < orderbook_data.bids.len()
        invariant
            i <= orderbook_data.bids@.len(),
            bids@.len() == i,
            forall|k: int|
                0 <= k < i ==> (#[trigger] bids@[k]) == (WireLevel {
                    price: orderbook_data.bids@[k].price,
                    quantity: orderbook_data.bids@[k].quantity,
                }),
        decreases orderbook_data.bids@.len() - i,
    {
        let level = orderbook_data.bids[i];
        bids.push(WireLevel { price: level.price, quantity: level.quantity });
        i += 1;
    }
    let mut asks: Vec<WireLevel> = Vec::new();
    let mut i: usize = 0;
    while i < orderbook_data.asks.len()
        invariant
            i <= orderbook_data.asks@.len(),
            asks@.len() == i,
            forall|k: int|
                0 <= k < i ==> (#[trigger] asks@[k]) == (WireLevel {
                    price: orderbook_data.asks@[k].price,
                    quantity: orderbook_data.asks@[k].quantity,
                }),
        decreases orderbook_data.asks@.len() - i,
    {
        let level = orderbook_data.asks[i];
        asks.push(WireLevel { price: level.price, quantity: level.quantity });
        i += 1;
    }
    OrderbookData { last_trade_price, max_bid, min_ask, bids, asks }
}

/// The wire form of a resting order.
pub fn limit_to_proto(limit_order: LimitOrder, symbol: String, timestamp: u128) -> (r: CreateOrder)
    ensures
        r.status == 0,
        spec_u128_bytes_ok(limit_order.id, r.order_id@),
        r.price == limit_order.price,
        r.quantity == limit_order.quantity,
        r.side == limit_order.side.spec_code(),
        r.symbol == symbol,
        spec_u128_bytes_ok(timestamp, r.timestamp@),
{
    CreateOrder {
        status: 0,
        order_id: u128_to_be_bytes(limit_order.id),
        price: limit_order.price,
        quantity: limit_order.quantity,
        side: limit_order.side.code(),
        symbol,
        timestamp: u128_to_be_bytes(timestamp),
    }
}

/// The wire form of one match.
pub fn fill_meta_data_to_proto(fill_meta_data: FillMetaData) -> (r: FillOrderData)
    ensures
        spec_u128_bytes_ok(fill_meta_data.order_id, r.order_id@),
        spec_u128_bytes_ok(fill_meta_data.matched_order_id, r.matched_order_id@),
        r.taker_side == fill_meta_data.taker_side.spec_code(),
        r.price == fill_meta_data.price,
        r.amount == fill_meta_data.quantity,
{
    FillOrderData {
        order_id: u128_to_be_bytes(fill_meta_data.order_id),
        matched_order_id: u128_to_be_bytes(fill_meta_data.matched_order_id),
        taker_side: fill_meta_data.taker_side.code(),
        price: fill_meta_data.price,
        amount: fill_meta_data.quantity,
    }
}

/// Converts the matches of a fill, keeping their order.
fn fills_to_proto(order_fills: &Vec<FillMetaData>) -> (r: Vec<FillOrderData>)
    ensures
        wire_fills_ok(order_fills@, r@),
{
    let mut r: Vec<FillOrderData> = Vec::new();
    let mut i: usize = 0;
    while i < order_fills.len()
        invariant
            i <= order_fills@.len(),
            r@.len() == i,
            forall|k: int| 0 <= k < i ==> wire_fill_data_ok(order_fills@[k], #[trigger] r@[k]),
        decreases order_fills@.len() - i,
    {
        let fill = order_fills[i];
        r.push(fill_meta_data_to_proto(fill));
        i += 1;
    }
    r
}

impl FillResult {
    /// The wire form of a placement outcome: a creation, a fill, a partial
    /// fill, or a generic failure.
    pub fn to_protobuf(&self, ticker: String, timestamp: u128) -> (r: ProtoBufResult)
        ensures
            wire_of_fill(*self, r, ticker@, timestamp),
    {
        match self {
            FillResult::Created(order) => ProtoBufResult::Create(
                limit_to_proto(*order, ticker, timestamp),
            ),
            FillResult::Filled(order_fills) => ProtoBufResult::Fill(
                FillOrder {
                    status: 1,
                    filled_orders: fills_to_proto(order_fills),
                    symbol: ticker,
                    timestamp: u128_to_be_bytes(timestamp),
                },
            ),
            FillResult::PartiallyFilled(order, order_fills) => ProtoBufResult::PartialFill(
                PartialFillOrder {
                    status: 2,
                    partial_create: Some(
                        CreateOrder {
                            status: 2,
                            order_id: u128_to_be_bytes(order.id),
                            price: order.price,
                            quantity: order.quantity,
                            side: order.side.code(),
                            symbol: ticker.clone(),
                            timestamp: u128_to_be_bytes(timestamp),
                        },
                    ),
                    partial_fills: Some(
                        FillOrder {
                            status: 2,
                            filled_orders: fills_to_proto(order_fills),
                            symbol: ticker.clone(),
                            timestamp: u128_to_be_bytes(timestamp),
                        },
                    ),
                    symbol: ticker,
                    timestamp: u128_to_be_bytes(timestamp),
                },
            ),
            FillResult::Failed => ProtoBufResult::Failed(
                GenericMessage {
                    message: "failed to place order".to_string(),
                    symbol: ticker,
                    timestamp: u128_to_be_bytes(timestamp),
                },
            ),
        }
    }
}

impl ModifyResult {
    /// The wire form of a modify outcome: the re-placement's own outcome,
    /// a modify acknowledgement, or a generic failure.
    pub fn to_protobuf(&self, ticker: String, timestamp: u128) -> (r: ProtoBufResult)
        ensures
            wire_of_modify(*self, r, ticker@, timestamp),
    {
        match self {
            ModifyResult::Created(fill_result) => fill_result.to_protobuf(ticker, timestamp),
            ModifyResult::Modified(id) => ProtoBufResult::CancelModify(
                CancelModifyOrder {
                    status: 3,
                    order_id: u128_to_be_bytes(*id),
                    symbol: ticker,
                    timestamp: u128_to_be_bytes(timestamp),
                },
            ),
            ModifyResult::Failed => ProtoBufResult::Failed(
                GenericMessage {
                    message: "failed to modify order".to_string(),
                    symbol: ticker,
                    timestamp: u128_to_be_bytes(timestamp),
                },
            ),
        }
    }
}

impl ExecutionResult {
    /// The wire form of an executed operation: status 4 marks a cancel.
    pub fn to_protobuf(&self, ticker: String, timestamp: u128) -> (r: ProtoBufResult)
        ensures
            wire_of_exec(*self, r, ticker@, timestamp),
    {
        match self {
            ExecutionResult::Executed(fill_result) => fill_result.to_protobuf(ticker, timestamp),
            ExecutionResult::Modified(modify_result) => modify_result.to_protobuf(
                ticker,
                timestamp,
            ),
            ExecutionResult::Cancelled(id) => ProtoBufResult::CancelModify(
                CancelModifyOrder {
                    status: 4,
                    order_id: u128_to_be_bytes(*id),
                    symbol: ticker,
                    timestamp: u128_to_be_bytes(timestamp),
                },
            ),
            ExecutionResult::Failed(message) => ProtoBufResult::Failed(
                GenericMessage {
                    message: message.clone(),
                    symbol: ticker,
                    timestamp: u128_to_be_bytes(timestamp),
                },
            ),
        }
    }
}

} // verus!
