use orderbook::{
    MatchingEngine, OrderLifeTime, OrderRecord, OrderSide, OrderStatus, OrderType,
};

fn order(ticker: &str, side: OrderSide, id: &str, price: u64, quantity: u64) -> OrderRecord {
    OrderRecord::new(
        side,
        id.to_string(),
        ticker.to_string(),
        price,
        quantity,
        OrderType::LimitOrder,
        OrderLifeTime::GoodTilCancel,
    )
}

#[test]
fn engine_starts_without_books() {
    let engine = MatchingEngine::new();
    assert!(engine.orderbook(&"coin".to_string()).is_none());
}

#[test]
fn engine_makes_a_book_on_first_reference() {
    let mut engine = MatchingEngine::new();
    let mut first = order("coin", OrderSide::Buy, "b1", 100, 10);
    engine.create_order(&mut first);
    assert_eq!(first.order_status(), OrderStatus::Open);
    let book = engine.orderbook(&"coin".to_string()).unwrap();
    assert_eq!(book.entry(OrderSide::Buy, 100).unwrap().total_quantity(), 10);
    assert!(engine.orderbook(&"gold".to_string()).is_none());
}

#[test]
fn engine_keeps_instruments_apart() {
    let mut engine = MatchingEngine::new();
    engine.create_order(&mut order("coin", OrderSide::Buy, "b1", 100, 10));
    let mut sell = order("gold", OrderSide::Sell, "s1", 100, 10);
    engine.create_order(&mut sell);
    assert_eq!(sell.order_status(), OrderStatus::Open);
    assert_eq!(sell.remaining_quantity(), 10);

    let coin = engine.orderbook(&"coin".to_string()).unwrap();
    assert_eq!(coin.entry(OrderSide::Buy, 100).unwrap().total_quantity(), 10);
    assert_eq!(coin.sell_orders().len(), 0);
    let gold = engine.orderbook(&"gold".to_string()).unwrap();
    assert_eq!(gold.entry(OrderSide::Sell, 100).unwrap().total_quantity(), 10);
    assert_eq!(gold.buy_orders().len(), 0);

    let mut cross = order("coin", OrderSide::Sell, "s2", 100, 4);
    engine.create_order(&mut cross);
    assert_eq!(cross.order_status(), OrderStatus::Filled);
    let coin = engine.orderbook(&"coin".to_string()).unwrap();
    assert_eq!(coin.entry(OrderSide::Buy, 100).unwrap().total_quantity(), 6);
    let gold = engine.orderbook(&"gold".to_string()).unwrap();
    assert_eq!(gold.entry(OrderSide::Sell, 100).unwrap().total_quantity(), 10);
}

#[test]
fn engine_cancels_in_the_book_of_the_instrument() {
    let mut engine = MatchingEngine::new();
    engine.create_order(&mut order("coin", OrderSide::Buy, "b1", 100, 10));
    engine.create_order(&mut order("gold", OrderSide::Buy, "b1", 100, 20));

    let mut reference = order("gold", OrderSide::Buy, "b1", 100, 0);
    engine.cancel_order(&mut reference);
    assert_eq!(reference.order_status(), OrderStatus::Canceled);
    assert!(engine.orderbook(&"gold".to_string()).unwrap().entry(OrderSide::Buy, 100).is_none());
    let coin = engine.orderbook(&"coin".to_string()).unwrap();
    assert_eq!(coin.entry(OrderSide::Buy, 100).unwrap().total_quantity(), 10);

    let mut again = order("gold", OrderSide::Buy, "b1", 100, 0);
    engine.cancel_order(&mut again);
    assert_eq!(again.order_status(), OrderStatus::New);
}

#[test]
fn engine_cancel_for_an_unknown_instrument_changes_nothing_else() {
    let mut engine = MatchingEngine::new();
    engine.create_order(&mut order("coin", OrderSide::Buy, "b1", 100, 10));
    let mut reference = order("iron", OrderSide::Buy, "b1", 100, 0);
    engine.cancel_order(&mut reference);
    assert_eq!(reference.order_status(), OrderStatus::New);
    let iron = engine.orderbook(&"iron".to_string()).unwrap();
    assert_eq!(iron.buy_orders().len(), 0);
    assert_eq!(iron.sell_orders().len(), 0);
    let coin = engine.orderbook(&"coin".to_string()).unwrap();
    assert_eq!(coin.entry(OrderSide::Buy, 100).unwrap().total_quantity(), 10);
}

#[test]
fn engine_rejects_fill_or_kill_like_the_book() {
    let mut engine = MatchingEngine::new();
    engine.create_order(&mut order("coin", OrderSide::Buy, "b1", 9999, 100));
    let mut sell = OrderRecord::new(
        OrderSide::Sell,
        "s1".to_string(),
        "coin".to_string(),
        9999,
        120,
        OrderType::LimitOrder,
        OrderLifeTime::FillOrKill,
    );
    engine.create_order(&mut sell);
    assert_eq!(sell.order_status(), OrderStatus::Rejected);
    let coin = engine.orderbook(&"coin".to_string()).unwrap();
    assert_eq!(coin.entry(OrderSide::Buy, 9999).unwrap().total_quantity(), 100);
    assert_eq!(coin.entry(OrderSide::Buy, 9999).unwrap().len(), 1);
    assert_eq!(coin.sell_orders().len(), 0);
}
