use orderbook::{HalfBook, OrderBook, OrderStatus, Side};

fn book() -> OrderBook {
    OrderBook::new("BTC".to_string())
}

#[test]
fn fresh_bid_rests_untouched() {
    let mut ob = book();
    let r = ob.add_limit_order(Side::Bid, 100, 10);
    assert_eq!(r.status, OrderStatus::Created);
    assert_eq!(r.remaining_qty, 10);
    assert!(r.filled_orders.is_empty());
    assert_eq!(ob.depth(Side::Bid, 100), 10);
    assert_eq!(ob.best_bid_price(), 100);
}

#[test]
fn ask_fills_against_resting_bid() {
    let mut ob = book();
    ob.add_limit_order(Side::Bid, 100, 10);
    let r = ob.add_limit_order(Side::Ask, 100, 4);
    assert_eq!(r.status, OrderStatus::Filled);
    assert_eq!(r.filled_orders, vec![(4, 100)]);
    assert_eq!(r.remaining_qty, 0);
    assert_eq!(ob.depth(Side::Bid, 100), 6);
    assert_eq!(ob.depth(Side::Ask, 100), 0);
}

#[test]
fn ask_partially_fills_then_rests() {
    let mut ob = book();
    ob.add_limit_order(Side::Bid, 100, 10);
    ob.add_limit_order(Side::Ask, 100, 4);
    let r = ob.add_limit_order(Side::Ask, 100, 10);
    assert_eq!(r.status, OrderStatus::PartiallyFilled);
    assert_eq!(r.filled_orders, vec![(6, 100)]);
    assert_eq!(r.remaining_qty, 4);
    assert_eq!(ob.depth(Side::Ask, 100), 4);
    assert_eq!(ob.depth(Side::Bid, 100), 0);
    assert_eq!(ob.best_offer_price(), 100);
    // The bid side is empty, so its cached best price is the sentinel.
    assert_eq!(ob.best_bid_price(), u64::MIN);
}

#[test]
fn ask_takes_best_bid_first() {
    let mut ob = book();
    ob.add_limit_order(Side::Bid, 90, 5);
    ob.add_limit_order(Side::Bid, 95, 5);
    let r = ob.add_limit_order(Side::Ask, 90, 7);
    assert_eq!(r.filled_orders, vec![(5, 95), (2, 90)]);
    assert_eq!(r.remaining_qty, 0);
    assert_eq!(r.status, OrderStatus::Filled);
    assert_eq!(ob.depth(Side::Bid, 95), 0);
    assert_eq!(ob.depth(Side::Bid, 90), 3);
    assert_eq!(ob.best_bid_price(), 90);
}

#[test]
fn bid_takes_best_ask_first() {
    let mut ob = book();
    ob.add_limit_order(Side::Ask, 105, 5);
    ob.add_limit_order(Side::Ask, 101, 5);
    ob.add_limit_order(Side::Ask, 110, 5);
    let r = ob.add_limit_order(Side::Bid, 106, 12);
    assert_eq!(r.filled_orders, vec![(5, 101), (5, 105)]);
    assert_eq!(r.remaining_qty, 2);
    assert_eq!(r.status, OrderStatus::PartiallyFilled);
    assert_eq!(ob.depth(Side::Bid, 106), 2);
    assert_eq!(ob.best_bid_price(), 106);
    assert_eq!(ob.best_offer_price(), 110);
}

#[test]
fn cancel_unknown_id_changes_nothing() {
    let mut ob = book();
    ob.add_limit_order_with_id(Side::Bid, 100, 10, 1);
    ob.add_limit_order_with_id(Side::Ask, 120, 3, 2);
    let before = ob.get_bbo();
    assert_eq!(ob.cancel_order(99), Err("unknown order id"));
    assert_eq!(ob.get_bbo(), before);
    assert!(ob.has_order(1));
    assert!(ob.has_order(2));
    assert_eq!(ob.depth(Side::Bid, 100), 10);
    assert_eq!(ob.depth(Side::Ask, 120), 3);
}

#[test]
fn cancel_twice_succeeds_once() {
    let mut ob = book();
    ob.add_limit_order_with_id(Side::Bid, 100, 10, 7);
    assert_eq!(ob.cancel_order(7), Ok("Successfully cancelled order"));
    assert_eq!(ob.cancel_order(7), Err("unknown order id"));
    assert!(!ob.has_order(7));
    assert_eq!(ob.depth(Side::Bid, 100), 0);
}

#[test]
fn cancel_leaves_cached_best_price() {
    let mut ob = book();
    ob.add_limit_order_with_id(Side::Bid, 100, 10, 1);
    ob.add_limit_order_with_id(Side::Bid, 90, 10, 2);
    assert!(ob.cancel_order(1).is_ok());
    assert_eq!(ob.best_bid_price(), 100);
    ob.add_limit_order_with_id(Side::Bid, 80, 1, 3);
    assert_eq!(ob.best_bid_price(), 90);
}

#[test]
fn emptied_ask_side_returns_to_sentinel() {
    let mut ob = book();
    ob.add_limit_order(Side::Ask, 100, 5);
    assert_eq!(ob.best_offer_price(), 100);
    ob.add_limit_order(Side::Bid, 100, 5);
    assert_eq!(ob.best_offer_price(), u64::MAX);
    assert_eq!(ob.best_bid_price(), u64::MIN);
}

#[test]
fn fills_conserve_quantity() {
    let mut ob = book();
    ob.add_limit_order(Side::Ask, 10, 3);
    ob.add_limit_order(Side::Ask, 11, 4);
    ob.add_limit_order(Side::Ask, 12, 5);
    let r = ob.add_limit_order(Side::Bid, 11, 20);
    let filled: u64 = r.filled_orders.iter().map(|f| f.0).sum();
    assert_eq!(r.remaining_qty + filled, 20);
    assert_eq!(r.filled_orders, vec![(3, 10), (4, 11)]);
    assert_eq!(r.remaining_qty, 13);
}

#[test]
fn best_prices_follow_adds() {
    let mut ob = book();
    ob.add_limit_order(Side::Bid, 50, 1);
    ob.add_limit_order(Side::Bid, 70, 1);
    ob.add_limit_order(Side::Bid, 60, 1);
    ob.add_limit_order(Side::Ask, 90, 1);
    ob.add_limit_order(Side::Ask, 80, 1);
    ob.add_limit_order(Side::Ask, 85, 1);
    assert_eq!(ob.best_bid_price(), 70);
    assert_eq!(ob.best_offer_price(), 80);
    assert_eq!(ob.get_bbo(), (70, 1, 80, 1));
}

#[test]
fn book_never_crossed_after_add() {
    let mut ob = book();
    ob.add_limit_order(Side::Ask, 100, 5);
    ob.add_limit_order(Side::Ask, 102, 5);
    ob.add_limit_order(Side::Bid, 103, 12);
    assert_eq!(ob.depth(Side::Ask, 100), 0);
    assert_eq!(ob.depth(Side::Ask, 102), 0);
    assert_eq!(ob.depth(Side::Bid, 103), 2);
    ob.add_limit_order(Side::Ask, 101, 1);
    assert_eq!(ob.depth(Side::Bid, 103), 1);
    assert_eq!(ob.depth(Side::Ask, 101), 0);
}

#[test]
fn same_price_fills_oldest_first() {
    let mut ob = book();
    ob.add_limit_order_with_id(Side::Bid, 100, 3, 1);
    ob.add_limit_order_with_id(Side::Bid, 100, 4, 2);
    let r = ob.add_limit_order(Side::Ask, 100, 5);
    assert_eq!(r.filled_orders, vec![(5, 100)]);
    assert!(!ob.has_order(1));
    assert!(ob.has_order(2));
    assert_eq!(ob.depth(Side::Bid, 100), 2);
    assert!(ob.cancel_order(2).is_ok());
    assert_eq!(ob.depth(Side::Bid, 100), 0);
}

#[test]
fn zero_quantity_is_filled_and_rests_nothing() {
    let mut ob = book();
    let r = ob.add_limit_order(Side::Bid, 100, 0);
    assert_eq!(r.status, OrderStatus::Filled);
    assert_eq!(r.remaining_qty, 0);
    assert!(r.filled_orders.is_empty());
    assert_eq!(ob.depth(Side::Bid, 100), 0);
}

#[test]
fn non_crossing_order_is_created() {
    let mut ob = book();
    ob.add_limit_order(Side::Ask, 110, 5);
    let r = ob.add_limit_order(Side::Bid, 100, 5);
    assert_eq!(r.status, OrderStatus::Created);
    assert!(r.filled_orders.is_empty());
    assert_eq!(ob.depth(Side::Ask, 110), 5);
}

#[test]
fn random_ids_rest_separately() {
    let mut ob = book();
    ob.add_limit_order(Side::Ask, 100, 2);
    ob.add_limit_order(Side::Ask, 100, 3);
    assert_eq!(ob.depth(Side::Ask, 100), 5);
    let r = ob.add_limit_order(Side::Bid, 100, 5);
    assert_eq!(r.filled_orders, vec![(5, 100)]);
    assert_eq!(ob.depth(Side::Ask, 100), 0);
}

#[test]
fn depth_saturates() {
    let mut ob = book();
    ob.add_limit_order(Side::Bid, 10, u64::MAX);
    ob.add_limit_order(Side::Bid, 10, 5);
    assert_eq!(ob.depth(Side::Bid, 10), u64::MAX);
}

#[test]
fn unknown_price_has_no_depth() {
    let hb = HalfBook::new(Side::Bid);
    assert_eq!(hb.get_total_qty(42), 0);
    let ob = book();
    assert_eq!(ob.get_bbo(), (0, 0, u64::MAX, 0));
}

#[test]
fn index_follows_resting_orders() {
    let mut ob = book();
    ob.add_limit_order_with_id(Side::Ask, 100, 2, 10);
    ob.add_limit_order_with_id(Side::Ask, 101, 3, 11);
    ob.add_limit_order_with_id(Side::Ask, 102, 4, 12);
    let r = ob.add_limit_order_with_id(Side::Bid, 101, 4, 13);
    assert_eq!(r.filled_orders, vec![(2, 100), (2, 101)]);
    assert!(!ob.has_order(10));
    assert!(ob.has_order(11));
    assert!(ob.has_order(12));
    assert!(!ob.has_order(13));
    assert_eq!(ob.depth(Side::Ask, 101), 1);
    assert!(ob.cancel_order(11).is_ok());
    assert_eq!(ob.depth(Side::Ask, 101), 0);
    assert!(ob.cancel_order(10).is_err());
    assert!(ob.cancel_order(13).is_err());
    assert_eq!(ob.depth(Side::Ask, 102), 4);
}
