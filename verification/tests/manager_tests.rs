use gemmy::manager::{Manager, OrderbookManager};
use gemmy::models::{LimitOrder, Operation, Side};

#[test]
fn manager_it_tests_successful_snapshot() {
    let mut manager = Manager::new();
    let operation = Operation::Limit(LimitOrder::new(1, 100, 100, Side::Bid));
    manager.get_primary().execute(operation);
    let operation_second = Operation::Limit(LimitOrder::new(2, 100, 100, Side::Bid));
    manager.get_primary().execute(operation_second);
    manager.snapshot();
    let secondary = manager.get_secondary();
    println!("{:?}", secondary.depth(5));
    assert_eq!(secondary.get_max_bid(), Some(100));
    assert_eq!(secondary.get_total_quantity_at_price(Side::Bid, 100), 200);
}

#[test]
fn orderbook_manager_service_it_tests_successful_snapshot() {
    let mut orderbook_manager = OrderbookManager::new("test".to_string(), 100, 10000);
    let operation = Operation::Limit(LimitOrder::new(1, 100, 100, Side::Bid));
    orderbook_manager.get_primary().execute(operation);
    let operation_second = Operation::Limit(LimitOrder::new(2, 100, 100, Side::Bid));
    orderbook_manager.get_primary().execute(operation_second);
    orderbook_manager.snapshot();
    let secondary = orderbook_manager.get_secondary();
    println!("{:?}", secondary.depth(5));
    assert_eq!(secondary.get_max_bid(), Some(100));
    assert_eq!(secondary.get_total_quantity_at_price(Side::Bid, 100), 200);
}
