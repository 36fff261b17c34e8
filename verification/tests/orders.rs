use orderbook::{OrderLifeTime, OrderRecord, OrderSide, OrderStatus, OrderType};

#[test]
fn new_order_has_nothing_executed() {
    let order = OrderRecord::new(
        OrderSide::Sell,
        "id-1".to_string(),
        "coin".to_string(),
        9999,
        130,
        OrderType::LimitOrder,
        OrderLifeTime::FillOrKill,
    );
    assert_eq!(order.order_side(), OrderSide::Sell);
    assert_eq!(order.order_id(), "id-1");
    assert_eq!(order.ticker(), "coin");
    assert_eq!(order.price(), 9999);
    assert_eq!(order.initial_quantity(), 130);
    assert_eq!(order.remaining_quantity(), 130);
    assert_eq!(order.order_type(), OrderType::LimitOrder);
    assert_eq!(order.order_life_time(), OrderLifeTime::FillOrKill);
    assert_eq!(order.order_status(), OrderStatus::New);
    assert!(order.has_id(&"id-1".to_string()));
    assert!(!order.has_id(&"id-2".to_string()));
}

#[test]
fn refresh_turns_a_new_order_open() {
    let mut order = OrderRecord::new(
        OrderSide::Buy,
        "id".to_string(),
        "coin".to_string(),
        1,
        10,
        OrderType::LimitOrder,
        OrderLifeTime::GoodTilCancel,
    );
    order.refresh_order_status();
    assert_eq!(order.order_status(), OrderStatus::Open);
    assert_eq!(order.remaining_quantity(), 10);
    order.refresh_order_status();
    assert_eq!(order.order_status(), OrderStatus::Open);
}

#[test]
fn clone_keeps_every_field() {
    let order = OrderRecord::new(
        OrderSide::Buy,
        "id".to_string(),
        "coin".to_string(),
        7,
        10,
        OrderType::MarketOrder,
        OrderLifeTime::ImmidiateOrCancel,
    );
    let copy = order.clone();
    assert_eq!(copy.order_side(), OrderSide::Buy);
    assert_eq!(copy.order_id(), "id");
    assert_eq!(copy.ticker(), "coin");
    assert_eq!(copy.price(), 7);
    assert_eq!(copy.initial_quantity(), 10);
    assert_eq!(copy.remaining_quantity(), 10);
    assert_eq!(copy.order_type(), OrderType::MarketOrder);
    assert_eq!(copy.order_life_time(), OrderLifeTime::ImmidiateOrCancel);
    assert_eq!(copy.order_status(), OrderStatus::New);
}

#[test]
fn expire_changes_the_status_only() {
    let mut order = OrderRecord::new(
        OrderSide::Buy,
        "id".to_string(),
        "coin".to_string(),
        7,
        10,
        OrderType::LimitOrder,
        OrderLifeTime::GoodTilCancel,
    );
    order.expire();
    assert_eq!(order.order_status(), OrderStatus::Expired);
    assert_eq!(order.remaining_quantity(), 10);
    assert_eq!(order.initial_quantity(), 10);
    assert_eq!(order.price(), 7);
    assert_eq!(order.order_id(), "id");
}
