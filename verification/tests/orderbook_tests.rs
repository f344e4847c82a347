use gemmy::models::{ExecutionResult, FillMetaData, FillResult, LimitOrder, MarketOrder, Operation, Side};
use gemmy::orderbook::OrderBook;

fn create_orderbook() -> OrderBook {
    let mut book = OrderBook::default();
    let orders = vec![
        LimitOrder::new(1, 100, 100, Side::Bid),
        LimitOrder::new(2, 100, 150, Side::Bid),
        LimitOrder::new(3, 100, 50, Side::Bid),
        LimitOrder::new(4, 110, 200, Side::Bid),
        LimitOrder::new(5, 110, 100, Side::Bid),
        LimitOrder::new(6, 120, 100, Side::Ask),
        LimitOrder::new(7, 120, 150, Side::Ask),
        LimitOrder::new(8, 120, 50, Side::Ask),
        LimitOrder::new(9, 130, 200, Side::Ask),
        LimitOrder::new(10, 130, 100, Side::Ask),
    ];
    for order in orders {
        book.execute(Operation::Limit(order));
    }
    book
}

fn fills_to_ids(fills: Vec<FillMetaData>) -> Vec<u128> {
    fills.iter().map(|f| f.matched_order_id).collect()
}

#[test]
fn orderbook_it_gets_total_quantity_at_price() {
    let book = create_orderbook();
    let result = book.get_total_quantity_at_price(Side::Bid, 100);
    assert_eq!(300, result);
}

#[test]
fn orderbook_it_cancels_order_when_it_exists() {
    let mut book = create_orderbook();
    let order = LimitOrder::new(11, 115, 100, Side::Bid);
    book.execute(Operation::Limit(order));
    match book.cancel_order(order.id) {
        Some(id) => {
            let store_order = book.order_store().get(id);
            assert!(id == order.id && book.get_max_bid() == Some(110) && store_order.is_none())
        }
        _ => panic!("test failed"),
    }
}

#[test]
fn orderbook_it_cancels_nothing_when_order_does_not_exist() {
    let mut book = create_orderbook();
    match book.cancel_order(11) {
        None => (),
        _ => panic!("test failed"),
    }
}

#[test]
fn orderbook_it_executes_a_limit_bid_that_is_created() {
    let mut book = create_orderbook();
    let order = LimitOrder::new(11, 100, 500, Side::Bid);
    match book.limit_bid_order(order) {
        FillResult::Created(created_order) => {
            let (stored_order, _) = book.order_store().get(order.id).unwrap();
            assert!(created_order.id == order.id && order == stored_order)
        }
        _ => panic!("test failed"),
    }
}

#[test]
fn orderbook_it_executes_a_limit_bid_that_is_filled() {
    let mut book = create_orderbook();
    let order = LimitOrder::new(11, 130, 400, Side::Bid);
    match book.limit_bid_order(order) {
        FillResult::Filled(order_fills) => {
            let quantity = book.get_total_quantity_at_price(Side::Ask, 130);
            assert!(fills_to_ids(order_fills) == vec![6, 7, 8, 9] && quantity == 200);
        }
        _ => panic!("test failed"),
    }
}

#[test]
fn orderbook_it_executes_a_limit_bid_that_is_partially_filled() {
    let mut book = create_orderbook();
    let order = LimitOrder::new(11, 150, 700, Side::Bid);
    match book.limit_bid_order(order) {
        FillResult::PartiallyFilled(order_placed, order_fills) => {
            let (stored_order, _) = book.order_store().get(order.id).unwrap();
            let created_order = LimitOrder::new(11, 150, 100, Side::Bid);
            assert!(
                fills_to_ids(order_fills) == vec![6, 7, 8, 9, 10]
                    && order_placed == created_order
                    && created_order == stored_order
            );
        }
        _ => panic!("invalid case for test"),
    }
}

#[test]
fn orderbook_it_executes_a_limit_ask_that_is_created() {
    let mut book = create_orderbook();
    let order = LimitOrder::new(11, 120, 250, Side::Ask);
    match book.limit_ask_order(order) {
        FillResult::Created(created_order) => {
            let (stored_order, _) = book.order_store().get(order.id).unwrap();
            assert!(created_order.id == order.id && order == stored_order)
        }
        _ => panic!("test failed"),
    }
}

#[test]
fn orderbook_it_executes_a_limit_ask_that_is_filled() {
    let mut book = create_orderbook();
    let order = LimitOrder::new(11, 100, 400, Side::Ask);
    match book.limit_ask_order(order) {
        FillResult::Filled(order_fills) => {
            let quantity = book.get_total_quantity_at_price(Side::Bid, order.price);
            assert!(fills_to_ids(order_fills) == vec![4, 5, 1] && quantity == 200);
        }
        _ => panic!("test failed"),
    }
}

#[test]
fn orderbook_it_executes_a_limit_ask_that_is_partially_filled() {
    let mut book = create_orderbook();
    let order = LimitOrder::new(11, 90, 700, Side::Ask);
    match book.limit_ask_order(order) {
        FillResult::PartiallyFilled(order_placed, order_fills) => {
            let (stored_order, _) = book.order_store().get(order.id).unwrap();
            let created_order = LimitOrder::new(11, 90, 100, Side::Ask);
            assert!(
                fills_to_ids(order_fills) == vec![4, 5, 1, 2, 3]
                    && order_placed == created_order
                    && created_order == stored_order
            );
        }
        _ => panic!("test failed"),
    }
}

#[test]
fn orderbook_it_modifies_limit_bid_order_quantity() {
    let mut book = create_orderbook();
    let order = LimitOrder::new(1, 100, 150, Side::Bid);
    book.modify_limit_buy_order(order);
    assert_eq!(book.get_total_quantity_at_price(Side::Bid, order.price), 350);
}

#[test]
fn orderbook_it_modifies_limit_ask_order_quantity() {
    let mut book = create_orderbook();
    let order = LimitOrder::new(6, 120, 150, Side::Ask);
    book.modify_limit_ask_order(order);
    assert_eq!(book.get_total_quantity_at_price(Side::Ask, order.price), 350);
}

#[test]
fn orderbook_it_modifies_limit_bid_order_price() {
    let mut book = create_orderbook();
    let order = LimitOrder::new(1, 120, 400, Side::Bid);
    book.modify_limit_buy_order(order);
    let quantity_at_100 = book.get_total_quantity_at_price(Side::Bid, 100);
    let quantity_at_120 = book.get_total_quantity_at_price(Side::Bid, 120);
    assert!(quantity_at_100 == 200 && quantity_at_120 == 100);
}

#[test]
fn orderbook_it_modifies_limit_ask_order_price() {
    let mut book = create_orderbook();
    let order = LimitOrder::new(6, 110, 400, Side::Ask);
    book.modify_limit_ask_order(order);
    let quantity_at_120 = book.get_total_quantity_at_price(Side::Ask, 120);
    let quantity_at_110 = book.get_total_quantity_at_price(Side::Ask, 110);
    assert!(quantity_at_120 == 200 && quantity_at_110 == 100);
}

#[test]
fn orderbook_it_modifies_nothing_when_price_and_quantity_are_same() {
    let mut book = create_orderbook();
    let order = LimitOrder::new(1, 100, 100, Side::Bid);
    book.modify_limit_buy_order(order);
    assert_eq!(book.get_total_quantity_at_price(Side::Bid, 100), 300);
}

#[test]
fn orderbook_it_executes_a_market_bid_filled() {
    let mut book = create_orderbook();
    let order = MarketOrder::new(11, 500, Side::Bid);
    match book.market_bid_order(order) {
        FillResult::Filled(order_fills) => {
            let quantity = book.get_total_quantity_at_price(Side::Ask, 130);
            assert!(fills_to_ids(order_fills) == vec![6, 7, 8, 9] && quantity == 100);
        }
        _ => panic!("test failed"),
    }
}

#[test]
fn orderbook_it_executes_a_market_ask_filled() {
    let mut book = create_orderbook();
    let order = MarketOrder::new(11, 500, Side::Ask);
    match book.market_ask_order(order) {
        FillResult::Filled(order_fills) => {
            let quantity = book.get_total_quantity_at_price(Side::Bid, 100);
            assert!(fills_to_ids(order_fills) == vec![4, 5, 1, 2] && quantity == 100);
        }
        _ => panic!("test failed"),
    }
}

#[test]
fn orderbook_it_executes_a_market_bid_partially_filled() {
    let mut book = create_orderbook();
    let order = MarketOrder::new(11, 700, Side::Bid);
    match book.market_bid_order(order) {
        FillResult::PartiallyFilled(order_placed, order_fills) => {
            assert!(
                fills_to_ids(order_fills) == vec![6, 7, 8, 9, 10]
                    && order_placed == LimitOrder::new(11, 130, 100, Side::Bid)
            );
        }
        _ => panic!("test failed"),
    }
}

#[test]
fn orderbook_it_executes_a_market_ask_partially_filled() {
    let mut book = create_orderbook();
    let order = MarketOrder::new(11, 700, Side::Ask);
    match book.market_ask_order(order) {
        FillResult::PartiallyFilled(order_placed, order_fills) => {
            assert!(
                fills_to_ids(order_fills) == vec![4, 5, 1, 2, 3]
                    && order_placed == LimitOrder::new(11, 100, 100, Side::Ask)
            );
        }
        _ => panic!("test failed"),
    }
}

#[test]
fn orderbook_it_does_not_execute_market_bid_when_max_bid_is_none() {
    let mut book = OrderBook::default();
    let order = MarketOrder::new(1, 100, Side::Bid);
    match book.execute(Operation::Market(order)) {
        ExecutionResult::Failed(message) => {
            assert_eq!(message, "placed market order on empty book")
        }
        _ => panic!("test failed"),
    }
}

#[test]
fn orderbook_it_does_not_execute_market_ask_when_max_bid_is_none() {
    let mut book = OrderBook::default();
    let order = MarketOrder::new(1, 100, Side::Ask);
    match book.execute(Operation::Market(order)) {
        ExecutionResult::Failed(message) => {
            assert_eq!(message, "placed market order on empty book")
        }
        _ => panic!("test failed"),
    }
}

#[test]
fn orderbook_it_updates_top_price_when_bid_is_created() {
    let mut book = create_orderbook();
    let order = LimitOrder::new(11, 115, 500, Side::Bid);
    book.limit_bid_order(order);
    match book.get_max_bid() {
        Some(price) => assert_eq!(price, order.price),
        None => panic!("test failed"),
    }
}

#[test]
fn orderbook_it_updates_top_price_when_ask_is_created() {
    let mut book = create_orderbook();
    let order = LimitOrder::new(11, 115, 500, Side::Ask);
    book.limit_ask_order(order);
    match book.get_min_ask() {
        Some(price) => assert_eq!(price, order.price),
        None => panic!("test failed"),
    }
}

#[test]
fn orderbook_it_updates_top_price_when_bid_is_filled() {
    let mut book = create_orderbook();
    let order = LimitOrder::new(11, 130, 500, Side::Bid);
    book.limit_bid_order(order);
    match book.get_min_ask() {
        Some(price) => assert_eq!(price, order.price),
        None => panic!("test failed"),
    }
}

#[test]
fn orderbook_it_updates_top_price_when_ask_is_filled() {
    let mut book = create_orderbook();
    let order = LimitOrder::new(11, 100, 500, Side::Ask);
    book.limit_ask_order(order);
    match book.get_max_bid() {
        Some(price) => assert_eq!(price, order.price),
        None => panic!("test failed"),
    }
}

#[test]
fn orderbook_it_updates_top_price_when_bid_is_partially_filled() {
    let mut book = create_orderbook();
    let order = LimitOrder::new(11, 130, 700, Side::Bid);
    book.limit_bid_order(order);
    // the partial bid drains every resting ask, so the ask side empties
    // while the remainder rests as the new best bid
    assert!(book.get_min_ask() == None && book.get_max_bid() == Some(order.price))
}

#[test]
fn orderbook_it_updates_top_price_when_ask_is_partially_filled() {
    let mut book = create_orderbook();
    let order = LimitOrder::new(11, 100, 700, Side::Ask);
    book.limit_ask_order(order);
    // the partial ask drains every resting bid, so the bid side empties
    // while the remainder rests as the new best ask
    assert!(book.get_max_bid() == None && book.get_min_ask() == Some(order.price))
}

#[test]
fn orderbook_it_tests_orderbook_depth() {
    let book = create_orderbook();
    let depth = book.depth(2);
    assert!(
        depth.levels == 2
            && depth.bids.len() == 2
            && depth.asks.len() == 2
            && depth.bids[0].price == 100
            && depth.bids[1].price == 110
            && depth.bids[0].quantity == 300
            && depth.bids[1].quantity == 300
            && depth.asks[0].price == 120
            && depth.asks[1].price == 130
            && depth.asks[0].quantity == 300
            && depth.asks[1].quantity == 300
    );
}

#[test]
fn orderbook_it_gets_max_bid() {
    let book = create_orderbook();
    let max_bid = book.get_max_bid();
    assert_eq!(max_bid, Some(110));
}

#[test]
fn orderbook_it_gets_min_ask() {
    let book = create_orderbook();
    let min_ask = book.get_min_ask();
    assert_eq!(min_ask, Some(120));
}

#[test]
fn orderbook_it_returns_none_for_empty_get_max_bid() {
    let book = OrderBook::default();
    let max_bid = book.get_max_bid();
    assert_eq!(max_bid, None);
}

#[test]
fn orderbook_it_returns_none_for_empty_get_min_ask() {
    let book = OrderBook::default();
    let min_ask = book.get_min_ask();
    assert_eq!(min_ask, None);
}
