use gemmy::executor::Batcher;
use gemmy::models::{
    ExecutionResult, FillMetaData, FillResult, LimitOrder, MarketOrder, ModifyResult, Operation,
    RfqStatus, Side,
};
use gemmy::orderbook::OrderBook;
use gemmy::protobuf::{rfq_to_proto, u128_to_be_bytes, ProtoBufResult, RfqResult};

fn ladder() -> OrderBook {
    let mut book = OrderBook::default();
    let orders = vec![
        LimitOrder::new(1, 100, 100, Side::Bid),
        LimitOrder::new(2, 100, 150, Side::Bid),
        LimitOrder::new(3, 100, 50, Side::Bid),
        LimitOrder::new(4, 110, 200, Side::Bid),
        LimitOrder::new(5, 110, 100, Side::Bid),
        LimitOrder::new(6, 120, 100, Side::Ask),
        LimitOrder::new(7, 120, 150, Side::Ask),
        LimitOrder::new(8, 120, 50, Side::Ask),
        LimitOrder::new(9, 130, 200, Side::Ask),
        LimitOrder::new(10, 130, 100, Side::Ask),
    ];
    for order in orders {
        book.execute(Operation::Limit(order));
    }
    book
}

fn maker_ids(fills: &[FillMetaData]) -> Vec<u128> {
    fills.iter().map(|f| f.matched_order_id).collect()
}

#[test]
fn depth_bids_take_the_top_of_the_book() {
    let book = ladder();
    // with more non-empty bid levels than asked for, the highest-priced
    // ones are reported, still ascending
    let depth = book.depth(1);
    assert_eq!(depth.bids.len(), 1);
    assert_eq!((depth.bids[0].price, depth.bids[0].quantity), (110, 300));
    assert_eq!(depth.asks.len(), 1);
    assert_eq!((depth.asks[0].price, depth.asks[0].quantity), (120, 300));
}

#[test]
fn ladder_depth_and_tops() {
    let book = ladder();
    let depth = book.depth(2);
    assert_eq!(depth.bids.len(), 2);
    assert_eq!(depth.asks.len(), 2);
    assert_eq!((depth.bids[0].price, depth.bids[0].quantity), (100, 300));
    assert_eq!((depth.bids[1].price, depth.bids[1].quantity), (110, 300));
    assert_eq!((depth.asks[0].price, depth.asks[0].quantity), (120, 300));
    assert_eq!((depth.asks[1].price, depth.asks[1].quantity), (130, 300));
    assert_eq!(book.get_max_bid(), Some(110));
    assert_eq!(book.get_min_ask(), Some(120));
}

#[test]
fn ladder_cross_fills_in_price_time_order() {
    let mut book = ladder();
    match book.execute(Operation::Limit(LimitOrder::new(11, 130, 400, Side::Bid))) {
        ExecutionResult::Executed(FillResult::Filled(fills)) => {
            assert_eq!(maker_ids(&fills), vec![6, 7, 8, 9]);
        }
        _ => panic!("expected a full fill"),
    }
    assert_eq!(book.get_total_quantity_at_price(Side::Ask, 130), 200);
    assert_eq!(book.get_min_ask(), Some(130));
    assert_eq!(book.get_last_trade_price(), 130);
}

#[test]
fn ladder_partial_fill_rests_residual() {
    let mut book = ladder();
    match book.execute(Operation::Limit(LimitOrder::new(11, 150, 700, Side::Bid))) {
        ExecutionResult::Executed(FillResult::PartiallyFilled(residual, fills)) => {
            assert_eq!(maker_ids(&fills), vec![6, 7, 8, 9, 10]);
            assert_eq!(residual, LimitOrder::new(11, 150, 100, Side::Bid));
        }
        _ => panic!("expected a partial fill"),
    }
    assert_eq!(book.get_max_bid(), Some(150));
    assert_eq!(book.get_min_ask(), None);
}

#[test]
fn market_on_empty_book_fails() {
    let mut book = OrderBook::default();
    match book.execute(Operation::Market(MarketOrder::new(1, 100, Side::Bid))) {
        ExecutionResult::Failed(message) => {
            assert_eq!(message, "placed market order on empty book")
        }
        _ => panic!("expected a failure"),
    }
}

#[test]
fn modify_keeps_queue_position_on_equal_price() {
    let mut book = ladder();
    match book.execute(Operation::Modify(LimitOrder::new(1, 100, 150, Side::Bid))) {
        ExecutionResult::Modified(ModifyResult::Modified(id)) => assert_eq!(id, 1),
        _ => panic!("expected an in-place modify"),
    }
    assert_eq!(book.get_total_quantity_at_price(Side::Bid, 100), 350);
    // an incoming ask that clears the level shows id 1 still matching
    // ahead of id 2
    match book.execute(Operation::Limit(LimitOrder::new(12, 100, 650, Side::Ask))) {
        ExecutionResult::Executed(FillResult::Filled(fills)) => {
            assert_eq!(maker_ids(&fills), vec![4, 5, 1, 2, 3]);
        }
        _ => panic!("expected a full fill"),
    }
}

#[test]
fn modify_with_new_price_loses_priority() {
    let mut book = ladder();
    match book.execute(Operation::Modify(LimitOrder::new(1, 120, 400, Side::Bid))) {
        ExecutionResult::Modified(ModifyResult::Created(FillResult::PartiallyFilled(res, fills))) => {
            // at 120 the modified bid crosses the resting asks first
            assert_eq!(maker_ids(&fills), vec![6, 7, 8]);
            assert_eq!(res, LimitOrder::new(1, 120, 100, Side::Bid));
        }
        _ => panic!("expected the re-placement to cross"),
    }
    assert_eq!(book.get_total_quantity_at_price(Side::Bid, 100), 200);
    assert_eq!(book.get_total_quantity_at_price(Side::Bid, 120), 100);
}

#[test]
fn modify_rejects_unknown_and_unchanged() {
    let mut book = ladder();
    match book.execute(Operation::Modify(LimitOrder::new(42, 100, 100, Side::Bid))) {
        ExecutionResult::Failed(message) => assert_eq!(message, "no modification occurred"),
        _ => panic!("expected a failure"),
    }
    match book.execute(Operation::Modify(LimitOrder::new(1, 100, 100, Side::Bid))) {
        ExecutionResult::Failed(message) => assert_eq!(message, "no modification occurred"),
        _ => panic!("expected a failure"),
    }
}

#[test]
fn cancel_updates_top_and_unknown_id_fails() {
    let mut book = ladder();
    book.execute(Operation::Limit(LimitOrder::new(11, 115, 100, Side::Bid)));
    assert_eq!(book.get_max_bid(), Some(115));
    match book.execute(Operation::Cancel(11)) {
        ExecutionResult::Cancelled(id) => assert_eq!(id, 11),
        _ => panic!("expected a cancel"),
    }
    assert_eq!(book.get_max_bid(), Some(110));
    assert!(book.order_store().get(11).is_none());
    match book.execute(Operation::Cancel(11)) {
        ExecutionResult::Failed(message) => assert_eq!(message, "order not found"),
        _ => panic!("expected a failure"),
    }
}

#[test]
fn rfq_complete_fill_quotes_the_weighted_average() {
    let book = ladder();
    match book.request_for_quote(MarketOrder::new(0, 500, Side::Bid)) {
        RfqStatus::CompleteFill(vwap) => assert_eq!(vwap, 124),
        _ => panic!("expected a complete fill quote"),
    }
    // the quote read nothing away from the book
    assert_eq!(book.get_total_quantity_at_price(Side::Ask, 120), 300);
    assert_eq!(book.get_total_quantity_at_price(Side::Ask, 130), 300);
    assert_eq!(book.get_min_ask(), Some(120));
    assert_eq!(book.get_max_bid(), Some(110));
}

#[test]
fn rfq_partial_and_impossible_cases() {
    let book = ladder();
    match book.request_for_quote(MarketOrder::new(0, 700, Side::Bid)) {
        RfqStatus::PartialFillAndLimitPlaced(vwap, remaining) => {
            // 600 units filled for 75000 in total
            assert_eq!(vwap, 125);
            assert_eq!(remaining, 100);
        }
        _ => panic!("expected a partial quote"),
    }
    match book.request_for_quote(MarketOrder::new(0, 0, Side::Bid)) {
        RfqStatus::NotPossible => (),
        _ => panic!("expected no quote"),
    }
    let empty = OrderBook::default();
    match empty.request_for_quote(MarketOrder::new(0, 5, Side::Ask)) {
        RfqStatus::NotPossible => (),
        _ => panic!("expected no quote"),
    }
}

#[test]
fn rfq_ask_side_walks_bids_from_the_top() {
    let book = ladder();
    match book.request_for_quote(MarketOrder::new(0, 400, Side::Ask)) {
        // 300 at 110 and 100 at 100 sell for 43000 in total
        RfqStatus::CompleteFill(vwap) => assert_eq!(vwap, 107),
        _ => panic!("expected a complete fill quote"),
    }
}

#[test]
fn conservation_across_a_cross() {
    let mut book = ladder();
    let before: u64 = [100u64, 110, 120, 130]
        .iter()
        .map(|p| {
            book.get_total_quantity_at_price(Side::Bid, *p)
                + book.get_total_quantity_at_price(Side::Ask, *p)
        })
        .sum();
    assert_eq!(before, 1200);
    let placed = 400u64;
    let filled: u64 = match book.execute(Operation::Limit(LimitOrder::new(11, 130, placed, Side::Bid))) {
        ExecutionResult::Executed(FillResult::Filled(fills)) => {
            fills.iter().map(|f| f.quantity).sum()
        }
        _ => panic!("expected a full fill"),
    };
    let after: u64 = [100u64, 110, 120, 130]
        .iter()
        .map(|p| {
            book.get_total_quantity_at_price(Side::Bid, *p)
                + book.get_total_quantity_at_price(Side::Ask, *p)
        })
        .sum();
    // resting quantity plus both legs of the fills equals what was placed
    assert_eq!(after + 2 * filled, before + placed);
}

#[test]
fn batcher_flushes_at_threshold_in_order() {
    let mut batcher = Batcher::new(3);
    let op1 = Operation::Cancel(1);
    let op2 = Operation::Cancel(2);
    let op3 = Operation::Cancel(3);
    assert!(batcher.push(op1).is_none());
    assert!(batcher.push(op2).is_none());
    match batcher.push(op3) {
        Some(batch) => {
            let ids: Vec<u128> = batch
                .iter()
                .map(|op| match op {
                    Operation::Cancel(id) => *id,
                    _ => panic!("unexpected operation"),
                })
                .collect();
            assert_eq!(ids, vec![1, 2, 3]);
        }
        None => panic!("expected a flush"),
    }
    assert!(batcher.drain().is_none());
    assert!(batcher.push(Operation::Cancel(4)).is_none());
    match batcher.drain() {
        Some(batch) => assert_eq!(batch.len(), 1),
        None => panic!("expected the waiting operation"),
    }
}

#[test]
fn wire_forms_carry_the_fields() {
    let bytes = u128_to_be_bytes(256);
    assert_eq!(bytes.len(), 16);
    assert_eq!(bytes[14], 1);
    assert_eq!(bytes[15], 0);
    assert_eq!(
        rfq_to_proto(RfqStatus::CompleteFill(124)),
        RfqResult { status: 0, price: 124, quantity: 0 }
    );
    assert_eq!(
        rfq_to_proto(RfqStatus::NotPossible),
        RfqResult { status: 3, price: 0, quantity: 0 }
    );
    let mut book = ladder();
    let result = book.execute(Operation::Cancel(1));
    match result.to_protobuf("test".to_string(), 7) {
        ProtoBufResult::CancelModify(c) => {
            assert_eq!(c.status, 4);
            assert_eq!(c.order_id, u128_to_be_bytes(1));
            assert_eq!(c.symbol, "test");
        }
        _ => panic!("expected a cancel event"),
    }
}

#[test]
fn fresh_book_is_empty() {
    let a = OrderBook::new(4, 16);
    assert_eq!(a.get_max_bid(), None);
    assert_eq!(a.get_last_trade_price(), 0);
    let depth = a.depth(3);
    assert_eq!(depth.bids.len(), 0);
    assert_eq!(depth.asks.len(), 0);
}
