use orderbook::{
    OrderBook, OrderEntry, OrderLifeTime, OrderRecord, OrderSide, OrderStatus, OrderType,
};

fn limit(side: OrderSide, id: &str, price: u64, quantity: u64) -> OrderRecord {
    OrderRecord::new(
        side,
        id.to_string(),
        "coin".to_string(),
        price,
        quantity,
        OrderType::LimitOrder,
        OrderLifeTime::GoodTilCancel,
    )
}

fn with_lifetime(
    side: OrderSide,
    id: &str,
    price: u64,
    quantity: u64,
    lifetime: OrderLifeTime,
) -> OrderRecord {
    OrderRecord::new(
        side,
        id.to_string(),
        "coin".to_string(),
        price,
        quantity,
        OrderType::LimitOrder,
        lifetime,
    )
}

fn market(side: OrderSide, id: &str, price: u64, quantity: u64) -> OrderRecord {
    OrderRecord::new(
        side,
        id.to_string(),
        "coin".to_string(),
        price,
        quantity,
        OrderType::MarketOrder,
        OrderLifeTime::GoodTilCancel,
    )
}

fn count(book: &OrderBook, side: OrderSide, price: u64) -> usize {
    book.entry(side, price).map(|entry| entry.len()).unwrap_or(0)
}

fn total(book: &OrderBook, side: OrderSide, price: u64) -> u128 {
    book.entry(side, price).map(|entry| entry.total_quantity()).unwrap_or(0)
}

fn ids(entry: &OrderEntry) -> Vec<String> {
    let mut out = Vec::new();
    let mut i = 0;
    while let Some(order) = entry.order(i) {
        out.push(order.order_id().clone());
        i += 1;
    }
    out
}

fn prices(book: &OrderBook, side: OrderSide) -> Vec<u64> {
    let levels = match side {
        OrderSide::Buy => book.buy_orders(),
        OrderSide::Sell => book.sell_orders(),
    };
    levels.iter().map(|entry| entry.price()).collect()
}

fn side_total(book: &OrderBook, side: OrderSide) -> u128 {
    let levels = match side {
        OrderSide::Buy => book.buy_orders(),
        OrderSide::Sell => book.sell_orders(),
    };
    levels.iter().map(|entry| entry.total_quantity()).sum()
}

fn assert_invariants(book: &OrderBook) {
    for (levels, ascending) in [(book.sell_orders(), true), (book.buy_orders(), false)] {
        let mut last: Option<u64> = None;
        for entry in levels.iter() {
            assert!(entry.len() > 0);
            assert!(!entry.is_empty());
            let mut sum: u128 = 0;
            let mut i = 0;
            while let Some(order) = entry.order(i) {
                sum += order.remaining_quantity() as u128;
                assert_eq!(order.price(), entry.price());
                i += 1;
            }
            assert_eq!(i, entry.len());
            assert_eq!(entry.total_quantity(), sum);
            if let Some(previous) = last {
                if ascending {
                    assert!(previous < entry.price());
                } else {
                    assert!(previous > entry.price());
                }
            }
            last = Some(entry.price());
        }
    }
}

#[test]
fn new_book_is_empty() {
    let book = OrderBook::new();
    assert_eq!(book.buy_orders().len(), 0);
    assert_eq!(book.sell_orders().len(), 0);
    assert!(book.entry(OrderSide::Buy, 9999).is_none());
    assert!(book.entry(OrderSide::Sell, 9999).is_none());
    let probe = limit(OrderSide::Buy, "probe", 9999, 10);
    assert_eq!(book.get_remaining_available_quantity(&probe), 0);
}

#[test]
fn sell_rests_then_buy_sweeps_three_levels() {
    let mut book = OrderBook::new();
    let mut first = limit(OrderSide::Sell, "s1", 130, 100);
    book.create_order(&mut first);
    assert_eq!(first.order_status(), OrderStatus::Open);
    assert_eq!(first.remaining_quantity(), 100);
    assert_eq!(total(&book, OrderSide::Sell, 130), 100);
    assert_eq!(count(&book, OrderSide::Sell, 130), 1);

    book.create_order(&mut limit(OrderSide::Sell, "s2", 120, 100));
    book.create_order(&mut limit(OrderSide::Sell, "s3", 110, 100));
    assert_eq!(prices(&book, OrderSide::Sell), vec![110, 120, 130]);
    assert_invariants(&book);

    let mut buy = limit(OrderSide::Buy, "b1", 130, 300);
    book.create_order(&mut buy);
    assert_eq!(buy.remaining_quantity(), 0);
    assert_eq!(buy.initial_quantity(), 300);
    assert_eq!(buy.order_status(), OrderStatus::Filled);
    assert_eq!(book.sell_orders().len(), 0);
    assert_eq!(book.buy_orders().len(), 0);
    assert!(book.entry(OrderSide::Sell, 110).is_none());
    assert!(book.entry(OrderSide::Sell, 120).is_none());
    assert!(book.entry(OrderSide::Sell, 130).is_none());
}

#[test]
fn same_price_orders_are_served_in_arrival_order() {
    let mut book = OrderBook::new();
    book.create_order(&mut limit(OrderSide::Buy, "order1", 9999, 130));
    assert_eq!(total(&book, OrderSide::Buy, 9999), 130);
    book.create_order(&mut limit(OrderSide::Buy, "order2", 9999, 130));
    assert_eq!(total(&book, OrderSide::Buy, 9999), 260);
    assert_eq!(count(&book, OrderSide::Buy, 9999), 2);
    assert_eq!(
        ids(book.entry(OrderSide::Buy, 9999).unwrap()),
        vec!["order1".to_string(), "order2".to_string()]
    );

    let mut sell = limit(OrderSide::Sell, "sell1", 9999, 50);
    book.create_order(&mut sell);
    assert_eq!(sell.order_status(), OrderStatus::Filled);
    assert_eq!(sell.remaining_quantity(), 0);
    {
        let entry = book.entry(OrderSide::Buy, 9999).unwrap();
        assert_eq!(entry.len(), 2);
        assert_eq!(entry.total_quantity(), 210);
        let front = entry.order(0).unwrap();
        assert_eq!(front.order_id(), "order1");
        assert_eq!(front.remaining_quantity(), 80);
        assert_eq!(front.initial_quantity(), 130);
        assert_eq!(front.order_status(), OrderStatus::PartiallyFilled);
        let second = entry.order(1).unwrap();
        assert_eq!(second.order_id(), "order2");
        assert_eq!(second.remaining_quantity(), 130);
        assert_eq!(second.order_status(), OrderStatus::Open);
        assert!(entry.order(2).is_none());
    }

    let mut sell = limit(OrderSide::Sell, "sell2", 9999, 80);
    book.create_order(&mut sell);
    assert_eq!(sell.order_status(), OrderStatus::Filled);
    {
        let entry = book.entry(OrderSide::Buy, 9999).unwrap();
        assert_eq!(entry.len(), 1);
        assert_eq!(entry.total_quantity(), 130);
        let front = entry.order(0).unwrap();
        assert_eq!(front.order_id(), "order2");
        assert_eq!(front.remaining_quantity(), 130);
        assert_eq!(front.order_status(), OrderStatus::Open);
    }
    assert_eq!(book.sell_orders().len(), 0);
    assert_invariants(&book);
}

#[test]
fn cancel_takes_one_order_and_is_silent_the_second_time() {
    let mut book = OrderBook::new();
    book.create_order(&mut limit(OrderSide::Buy, "keep", 9999, 70));
    book.create_order(&mut limit(OrderSide::Buy, "drop", 9999, 30));
    assert_eq!(count(&book, OrderSide::Buy, 9999), 2);
    assert_eq!(total(&book, OrderSide::Buy, 9999), 100);

    let mut reference = limit(OrderSide::Buy, "drop", 9999, 0);
    book.cancel_order(&mut reference);
    assert_eq!(reference.order_status(), OrderStatus::Canceled);
    assert_eq!(count(&book, OrderSide::Buy, 9999), 1);
    assert_eq!(total(&book, OrderSide::Buy, 9999), 70);
    assert_eq!(ids(book.entry(OrderSide::Buy, 9999).unwrap()), vec!["keep".to_string()]);

    let mut again = limit(OrderSide::Buy, "drop", 9999, 0);
    book.cancel_order(&mut again);
    assert_eq!(again.order_status(), OrderStatus::New);
    assert_eq!(count(&book, OrderSide::Buy, 9999), 1);
    assert_eq!(total(&book, OrderSide::Buy, 9999), 70);
    assert_invariants(&book);
}

#[test]
fn cancel_of_the_last_order_removes_the_level() {
    let mut book = OrderBook::new();
    book.create_order(&mut limit(OrderSide::Sell, "only", 50, 10));
    book.create_order(&mut limit(OrderSide::Sell, "other", 60, 10));
    let mut reference = limit(OrderSide::Sell, "only", 50, 0);
    book.cancel_order(&mut reference);
    assert_eq!(reference.order_status(), OrderStatus::Canceled);
    assert!(book.entry(OrderSide::Sell, 50).is_none());
    assert_eq!(prices(&book, OrderSide::Sell), vec![60]);
    assert_invariants(&book);
}

#[test]
fn cancel_looks_at_side_price_and_identifier() {
    let mut book = OrderBook::new();
    book.create_order(&mut limit(OrderSide::Buy, "a", 100, 10));

    let mut wrong_side = limit(OrderSide::Sell, "a", 100, 0);
    book.cancel_order(&mut wrong_side);
    assert_eq!(wrong_side.order_status(), OrderStatus::New);

    let mut wrong_price = limit(OrderSide::Buy, "a", 101, 0);
    book.cancel_order(&mut wrong_price);
    assert_eq!(wrong_price.order_status(), OrderStatus::New);

    let mut wrong_id = limit(OrderSide::Buy, "b", 100, 0);
    book.cancel_order(&mut wrong_id);
    assert_eq!(wrong_id.order_status(), OrderStatus::New);

    assert_eq!(count(&book, OrderSide::Buy, 100), 1);
    assert_eq!(total(&book, OrderSide::Buy, 100), 10);

    let mut on_empty = limit(OrderSide::Buy, "a", 100, 0);
    OrderBook::new().cancel_order(&mut on_empty);
    assert_eq!(on_empty.order_status(), OrderStatus::New);
}

#[test]
fn cancel_takes_the_first_of_two_orders_with_one_identifier() {
    let mut book = OrderBook::new();
    book.create_order(&mut limit(OrderSide::Buy, "twin", 100, 10));
    book.create_order(&mut limit(OrderSide::Buy, "single", 100, 20));
    book.create_order(&mut limit(OrderSide::Buy, "twin", 100, 40));
    book.cancel_order(&mut limit(OrderSide::Buy, "twin", 100, 0));
    let entry = book.entry(OrderSide::Buy, 100).unwrap();
    assert_eq!(ids(entry), vec!["single".to_string(), "twin".to_string()]);
    assert_eq!(entry.total_quantity(), 60);
    assert_eq!(entry.position(&"twin".to_string()), Some(1));
    assert_eq!(entry.position(&"single".to_string()), Some(0));
    assert_eq!(entry.position(&"nobody".to_string()), None);
}

#[test]
fn fill_or_kill_without_enough_liquidity_is_rejected() {
    let mut book = OrderBook::new();
    book.create_order(&mut limit(OrderSide::Buy, "bid", 9999, 100));

    let mut sell = with_lifetime(OrderSide::Sell, "fok", 9999, 120, OrderLifeTime::FillOrKill);
    assert_eq!(book.get_remaining_available_quantity(&sell), 100);
    book.create_order(&mut sell);
    assert_eq!(sell.order_status(), OrderStatus::Rejected);
    assert_eq!(sell.remaining_quantity(), 120);
    assert_eq!(sell.initial_quantity(), 120);
    assert_eq!(count(&book, OrderSide::Buy, 9999), 1);
    assert_eq!(total(&book, OrderSide::Buy, 9999), 100);
    assert_eq!(book.sell_orders().len(), 0);
    let front = book.entry(OrderSide::Buy, 9999).unwrap().order(0).unwrap();
    assert_eq!(front.remaining_quantity(), 100);
    assert_eq!(front.order_status(), OrderStatus::Open);
}

#[test]
fn fill_or_kill_counts_only_prices_within_the_limit() {
    let mut book = OrderBook::new();
    book.create_order(&mut limit(OrderSide::Sell, "near", 100, 60));
    book.create_order(&mut limit(OrderSide::Sell, "far", 105, 60));

    let mut short = with_lifetime(OrderSide::Buy, "fok1", 104, 100, OrderLifeTime::FillOrKill);
    book.create_order(&mut short);
    assert_eq!(short.order_status(), OrderStatus::Rejected);
    assert_eq!(side_total(&book, OrderSide::Sell), 120);
    assert_eq!(book.buy_orders().len(), 0);

    let mut enough = with_lifetime(OrderSide::Buy, "fok2", 105, 100, OrderLifeTime::FillOrKill);
    book.create_order(&mut enough);
    assert_eq!(enough.order_status(), OrderStatus::Filled);
    assert_eq!(enough.remaining_quantity(), 0);
    assert!(book.entry(OrderSide::Sell, 100).is_none());
    assert_eq!(total(&book, OrderSide::Sell, 105), 20);
    assert_eq!(book.buy_orders().len(), 0);
    assert_invariants(&book);
}

#[test]
fn fill_or_kill_for_exactly_what_is_there_is_filled() {
    let mut book = OrderBook::new();
    book.create_order(&mut limit(OrderSide::Buy, "bid", 9999, 100));
    let mut sell = with_lifetime(OrderSide::Sell, "fok", 9999, 100, OrderLifeTime::FillOrKill);
    book.create_order(&mut sell);
    assert_eq!(sell.order_status(), OrderStatus::Filled);
    assert_eq!(book.buy_orders().len(), 0);
    assert_eq!(book.sell_orders().len(), 0);
}

#[test]
fn immediate_or_cancel_remainder_is_discarded() {
    let mut book = OrderBook::new();
    book.create_order(&mut limit(OrderSide::Sell, "ask", 100, 40));
    let mut buy =
        with_lifetime(OrderSide::Buy, "ioc", 100, 100, OrderLifeTime::ImmidiateOrCancel);
    book.create_order(&mut buy);
    assert_eq!(buy.order_status(), OrderStatus::PartiallyFilled);
    assert_eq!(buy.remaining_quantity(), 60);
    assert_eq!(book.buy_orders().len(), 0);
    assert_eq!(book.sell_orders().len(), 0);
}

#[test]
fn immediate_or_cancel_that_is_filled_leaves_the_rest_of_the_level() {
    let mut book = OrderBook::new();
    book.create_order(&mut limit(OrderSide::Sell, "ask", 100, 40));
    let mut buy = with_lifetime(OrderSide::Buy, "ioc", 100, 30, OrderLifeTime::ImmidiateOrCancel);
    book.create_order(&mut buy);
    assert_eq!(buy.order_status(), OrderStatus::Filled);
    assert_eq!(buy.remaining_quantity(), 0);
    assert_eq!(book.buy_orders().len(), 0);
    assert_eq!(total(&book, OrderSide::Sell, 100), 10);
}

#[test]
fn immediate_or_cancel_with_nothing_executed_stays_open() {
    let mut book = OrderBook::new();
    let mut buy = with_lifetime(OrderSide::Buy, "ioc", 100, 25, OrderLifeTime::ImmidiateOrCancel);
    book.create_order(&mut buy);
    assert_eq!(buy.order_status(), OrderStatus::Open);
    assert_eq!(buy.remaining_quantity(), 25);
    assert_eq!(count(&book, OrderSide::Buy, 100), 1);
    assert_eq!(total(&book, OrderSide::Buy, 100), 25);
}

#[test]
fn market_order_is_matched_and_never_rested() {
    let mut book = OrderBook::new();
    book.create_order(&mut limit(OrderSide::Sell, "ask", 100, 40));

    let mut part = market(OrderSide::Buy, "m1", 100, 100);
    book.create_order(&mut part);
    assert_eq!(part.order_status(), OrderStatus::PartiallyFilled);
    assert_eq!(part.remaining_quantity(), 60);
    assert_eq!(book.buy_orders().len(), 0);
    assert_eq!(book.sell_orders().len(), 0);

    let mut none = market(OrderSide::Buy, "m2", 100, 100);
    book.create_order(&mut none);
    assert_eq!(none.order_status(), OrderStatus::Open);
    assert_eq!(none.remaining_quantity(), 100);
    assert_eq!(book.buy_orders().len(), 0);
    assert_eq!(book.sell_orders().len(), 0);
}

#[test]
fn buy_never_trades_above_its_limit() {
    let mut book = OrderBook::new();
    book.create_order(&mut limit(OrderSide::Sell, "cheap", 100, 10));
    book.create_order(&mut limit(OrderSide::Sell, "dear", 101, 10));
    let mut buy = limit(OrderSide::Buy, "b", 100, 15);
    book.create_order(&mut buy);
    assert_eq!(buy.remaining_quantity(), 5);
    assert_eq!(buy.order_status(), OrderStatus::PartiallyFilled);
    assert!(book.entry(OrderSide::Sell, 100).is_none());
    assert_eq!(total(&book, OrderSide::Sell, 101), 10);
    assert_eq!(total(&book, OrderSide::Buy, 100), 5);
    let rested = book.entry(OrderSide::Buy, 100).unwrap().order(0).unwrap();
    assert_eq!(rested.order_id(), "b");
    assert_eq!(rested.remaining_quantity(), 5);
    assert_eq!(rested.initial_quantity(), 15);
    assert_eq!(rested.order_status(), OrderStatus::PartiallyFilled);
    assert_invariants(&book);
}

#[test]
fn sell_never_trades_below_its_limit() {
    let mut book = OrderBook::new();
    book.create_order(&mut limit(OrderSide::Buy, "high", 100, 10));
    book.create_order(&mut limit(OrderSide::Buy, "low", 99, 10));
    let mut sell = limit(OrderSide::Sell, "s", 100, 15);
    book.create_order(&mut sell);
    assert_eq!(sell.remaining_quantity(), 5);
    assert!(book.entry(OrderSide::Buy, 100).is_none());
    assert_eq!(total(&book, OrderSide::Buy, 99), 10);
    assert_eq!(total(&book, OrderSide::Sell, 100), 5);
    assert_invariants(&book);
}

#[test]
fn best_price_is_taken_first() {
    let mut book = OrderBook::new();
    book.create_order(&mut limit(OrderSide::Sell, "dear", 120, 10));
    book.create_order(&mut limit(OrderSide::Sell, "cheap", 110, 10));
    book.create_order(&mut limit(OrderSide::Buy, "b", 130, 4));
    assert_eq!(total(&book, OrderSide::Sell, 110), 6);
    assert_eq!(total(&book, OrderSide::Sell, 120), 10);

    book.create_order(&mut limit(OrderSide::Buy, "low", 90, 10));
    book.create_order(&mut limit(OrderSide::Buy, "high", 95, 10));
    book.create_order(&mut limit(OrderSide::Sell, "s", 80, 4));
    assert_eq!(total(&book, OrderSide::Buy, 95), 6);
    assert_eq!(total(&book, OrderSide::Buy, 90), 10);
    assert_eq!(prices(&book, OrderSide::Buy), vec![95, 90]);
    assert_eq!(prices(&book, OrderSide::Sell), vec![110, 120]);
    assert_invariants(&book);
}

#[test]
fn levels_are_kept_best_first_and_prices_occur_once() {
    let mut book = OrderBook::new();
    for (i, price) in [105u64, 101, 103, 101, 109, 103, 100].into_iter().enumerate() {
        book.create_order(&mut limit(OrderSide::Sell, &format!("s{}", i), price, 1));
    }
    for (i, price) in [95u64, 99, 97, 99, 91, 97, 98].into_iter().enumerate() {
        book.create_order(&mut limit(OrderSide::Buy, &format!("b{}", i), price, 1));
    }
    assert_eq!(prices(&book, OrderSide::Sell), vec![100, 101, 103, 105, 109]);
    assert_eq!(prices(&book, OrderSide::Buy), vec![99, 98, 97, 95, 91]);
    assert_eq!(count(&book, OrderSide::Sell, 101), 2);
    assert_eq!(count(&book, OrderSide::Buy, 99), 2);
    assert_eq!(
        ids(book.entry(OrderSide::Sell, 103).unwrap()),
        vec!["s2".to_string(), "s5".to_string()]
    );
    assert_invariants(&book);
}

#[test]
fn available_quantity_sums_the_levels_within_the_limit() {
    let mut book = OrderBook::new();
    book.create_order(&mut limit(OrderSide::Sell, "a", 100, 10));
    book.create_order(&mut limit(OrderSide::Sell, "b", 100, 5));
    book.create_order(&mut limit(OrderSide::Sell, "c", 102, 20));
    book.create_order(&mut limit(OrderSide::Sell, "d", 104, 40));
    book.create_order(&mut limit(OrderSide::Buy, "e", 98, 7));
    book.create_order(&mut limit(OrderSide::Buy, "f", 96, 9));

    assert_eq!(book.get_remaining_available_quantity(&limit(OrderSide::Buy, "p", 99, 1)), 0);
    assert_eq!(book.get_remaining_available_quantity(&limit(OrderSide::Buy, "p", 100, 1)), 15);
    assert_eq!(book.get_remaining_available_quantity(&limit(OrderSide::Buy, "p", 103, 1)), 35);
    assert_eq!(book.get_remaining_available_quantity(&limit(OrderSide::Buy, "p", 104, 1)), 75);
    assert_eq!(book.get_remaining_available_quantity(&limit(OrderSide::Sell, "p", 99, 1)), 0);
    assert_eq!(book.get_remaining_available_quantity(&limit(OrderSide::Sell, "p", 98, 1)), 7);
    assert_eq!(book.get_remaining_available_quantity(&limit(OrderSide::Sell, "p", 96, 1)), 16);
    assert_eq!(book.get_remaining_available_quantity(&limit(OrderSide::Sell, "p", 0, 1)), 16);
    assert_eq!(side_total(&book, OrderSide::Sell), 75);
    assert_eq!(side_total(&book, OrderSide::Buy), 16);
}

#[test]
fn level_total_holds_more_than_one_order_can() {
    let mut book = OrderBook::new();
    book.create_order(&mut limit(OrderSide::Sell, "a", 100, u64::MAX));
    book.create_order(&mut limit(OrderSide::Sell, "b", 100, u64::MAX));
    assert_eq!(total(&book, OrderSide::Sell, 100), 2 * (u64::MAX as u128));
    let probe = limit(OrderSide::Buy, "p", u64::MAX, 1);
    assert_eq!(book.get_remaining_available_quantity(&probe), 36893488147419103230);
    assert_invariants(&book);
}

#[test]
fn what_the_incoming_order_gets_is_what_the_book_gives() {
    let mut book = OrderBook::new();
    book.create_order(&mut limit(OrderSide::Sell, "a", 100, 10));
    book.create_order(&mut limit(OrderSide::Sell, "b", 101, 20));
    book.create_order(&mut limit(OrderSide::Sell, "c", 102, 30));
    let before = side_total(&book, OrderSide::Sell);
    let mut buy = with_lifetime(OrderSide::Buy, "x", 101, 25, OrderLifeTime::ImmidiateOrCancel);
    book.create_order(&mut buy);
    let after = side_total(&book, OrderSide::Sell);
    assert_eq!(buy.remaining_quantity(), 0);
    assert_eq!(before - after, 25);
    assert_eq!(total(&book, OrderSide::Sell, 101), 5);
    assert_eq!(total(&book, OrderSide::Sell, 102), 30);
    assert_invariants(&book);
}

#[test]
fn filled_and_canceled_orders_are_left_alone() {
    let mut book = OrderBook::new();
    book.create_order(&mut limit(OrderSide::Sell, "ask", 100, 10));
    let mut buy = limit(OrderSide::Buy, "b", 100, 10);
    book.create_order(&mut buy);
    assert_eq!(buy.order_status(), OrderStatus::Filled);

    book.create_order(&mut limit(OrderSide::Sell, "ask2", 100, 10));
    book.create_order(&mut buy);
    assert_eq!(buy.order_status(), OrderStatus::Filled);
    assert_eq!(buy.remaining_quantity(), 0);
    assert_eq!(total(&book, OrderSide::Sell, 100), 10);
    assert_eq!(book.buy_orders().len(), 0);

    let mut reference = limit(OrderSide::Sell, "ask2", 100, 10);
    book.cancel_order(&mut reference);
    assert_eq!(reference.order_status(), OrderStatus::Canceled);
    assert_eq!(book.sell_orders().len(), 0);
    book.create_order(&mut reference);
    assert_eq!(reference.order_status(), OrderStatus::Canceled);
    assert_eq!(reference.remaining_quantity(), 10);
    assert_eq!(book.sell_orders().len(), 0);
    assert_eq!(book.buy_orders().len(), 0);
}

#[test]
fn order_of_no_quantity_stays_open() {
    let mut book = OrderBook::new();
    let mut empty = limit(OrderSide::Buy, "zero", 100, 0);
    book.create_order(&mut empty);
    assert_eq!(empty.order_status(), OrderStatus::Open);
    assert_eq!(count(&book, OrderSide::Buy, 100), 1);
    assert_eq!(total(&book, OrderSide::Buy, 100), 0);

    let mut sell = limit(OrderSide::Sell, "s", 100, 5);
    book.create_order(&mut sell);
    assert_eq!(sell.remaining_quantity(), 5);
    assert_eq!(sell.order_status(), OrderStatus::Open);
    assert!(book.entry(OrderSide::Buy, 100).is_none());
    assert_eq!(total(&book, OrderSide::Sell, 100), 5);
    assert_invariants(&book);
}

#[test]
fn empty_level_has_no_orders() {
    let entry = OrderEntry::new(42);
    assert_eq!(entry.price(), 42);
    assert_eq!(entry.len(), 0);
    assert!(entry.is_empty());
    assert_eq!(entry.total_quantity(), 0);
    assert!(entry.order(0).is_none());
    assert_eq!(entry.position(&"x".to_string()), None);
}

#[test]
fn default_level_is_empty_at_price_zero() {
    let entry = OrderEntry::default();
    assert_eq!(entry.price(), 0);
    assert_eq!(entry.len(), 0);
    assert_eq!(entry.total_quantity(), 0);
}

#[test]
fn expired_and_rejected_orders_are_left_alone() {
    let mut book = OrderBook::new();
    book.create_order(&mut limit(OrderSide::Sell, "ask", 100, 10));

    let mut late = limit(OrderSide::Buy, "late", 100, 10);
    late.expire();
    book.create_order(&mut late);
    assert_eq!(late.order_status(), OrderStatus::Expired);
    assert_eq!(late.remaining_quantity(), 10);
    assert_eq!(total(&book, OrderSide::Sell, 100), 10);
    assert_eq!(book.buy_orders().len(), 0);

    let mut whole = with_lifetime(OrderSide::Buy, "fok", 100, 20, OrderLifeTime::FillOrKill);
    book.create_order(&mut whole);
    assert_eq!(whole.order_status(), OrderStatus::Rejected);
    book.create_order(&mut limit(OrderSide::Sell, "ask2", 100, 10));
    book.create_order(&mut whole);
    assert_eq!(whole.order_status(), OrderStatus::Rejected);
    assert_eq!(whole.remaining_quantity(), 20);
    assert_eq!(total(&book, OrderSide::Sell, 100), 20);
    assert_eq!(book.buy_orders().len(), 0);
}

#[test]
fn level_clone_keeps_price_orders_and_total() {
    let mut book = OrderBook::new();
    book.create_order(&mut limit(OrderSide::Buy, "a", 100, 10));
    book.create_order(&mut limit(OrderSide::Buy, "b", 100, 20));
    let copy = book.entry(OrderSide::Buy, 100).unwrap().clone();
    book.cancel_order(&mut limit(OrderSide::Buy, "a", 100, 0));
    assert_eq!(copy.price(), 100);
    assert_eq!(copy.len(), 2);
    assert_eq!(copy.total_quantity(), 30);
    assert_eq!(ids(&copy), vec!["a".to_string(), "b".to_string()]);
    assert_eq!(copy.order(0).unwrap().remaining_quantity(), 10);
    assert_eq!(copy.order(1).unwrap().remaining_quantity(), 20);
    assert_eq!(total(&book, OrderSide::Buy, 100), 20);
}
