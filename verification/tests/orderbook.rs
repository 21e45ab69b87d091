use market_data::{Fixed, OrderBook};

const SCALE: i128 = 1_000_000;

#[test]
fn test_orderbook_creation() {
    let ob = OrderBook::new("BTCUSD".to_string());
    assert_eq!(ob.symbol, "BTCUSD");
    assert!(ob.bids.is_empty());
    assert!(ob.asks.is_empty());
}

#[test]
fn test_update_bid() {
    let mut ob = OrderBook::new("BTCUSD".to_string());
    ob.update_bid(Fixed::from_int(50000), Fixed::from_scaled(1_500_000));
    ob.update_bid(Fixed::from_int(49999), Fixed::from_int(2));

    assert_eq!(ob.bids.len(), 2);
    assert_eq!(ob.best_bid(), Some((Fixed::from_int(50000), Fixed::from_scaled(1_500_000))));
}

#[test]
fn test_update_ask() {
    let mut ob = OrderBook::new("BTCUSD".to_string());
    ob.update_ask(Fixed::from_int(50001), Fixed::from_int(1));
    ob.update_ask(Fixed::from_int(50002), Fixed::from_scaled(1_500_000));

    assert_eq!(ob.asks.len(), 2);
    assert_eq!(ob.best_ask(), Some((Fixed::from_int(50001), Fixed::from_int(1))));
}

#[test]
fn test_mid_price() {
    let mut ob = OrderBook::new("BTCUSD".to_string());
    ob.update_bid(Fixed::from_int(50000), Fixed::from_int(1));
    ob.update_ask(Fixed::from_int(50002), Fixed::from_int(1));

    assert_eq!(ob.mid_price(), Some(Fixed::from_int(50001)));
}

#[test]
fn test_spread() {
    let mut ob = OrderBook::new("BTCUSD".to_string());
    ob.update_bid(Fixed::from_int(50000), Fixed::from_int(1));
    ob.update_ask(Fixed::from_int(50002), Fixed::from_int(1));

    assert_eq!(ob.spread(), Some(Fixed::from_int(2)));
}

#[test]
fn test_volume_imbalance() {
    let mut ob = OrderBook::new("BTCUSD".to_string());
    ob.update_bid(Fixed::from_int(50000), Fixed::from_int(3));
    ob.update_ask(Fixed::from_int(50001), Fixed::from_int(1));

    let imbalance = ob.volume_imbalance();
    assert!(imbalance.raw > 0); // More bids than asks
}

#[test]
fn test_zero_quantity_removes_level() {
    // A zero-quantity update deletes the level; if it was the unique
    // bid, the side is empty afterwards.
    let mut ob = OrderBook::new("BTCUSD".to_string());
    ob.update_bid(Fixed::from_int(50000), Fixed::from_int(1));
    assert!(ob.best_bid().is_some());
    ob.update_bid(Fixed::from_int(50000), Fixed::from_int(0));
    assert_eq!(ob.best_bid(), None);
    assert!(ob.bids.is_empty());
    // Removing an absent level is a no-op.
    ob.update_bid(Fixed::from_int(12345), Fixed::from_int(0));
    assert!(ob.bids.is_empty());
}

#[test]
fn test_zero_quantity_keeps_other_levels() {
    let mut ob = OrderBook::new("BTCUSD".to_string());
    ob.update_bid(Fixed::from_int(50000), Fixed::from_int(1));
    ob.update_bid(Fixed::from_int(49999), Fixed::from_int(2));
    ob.update_bid(Fixed::from_int(50000), Fixed::from_int(0));
    assert_eq!(ob.best_bid(), Some((Fixed::from_int(49999), Fixed::from_int(2))));
}

#[test]
fn test_update_overwrites_quantity() {
    let mut ob = OrderBook::new("BTCUSD".to_string());
    ob.update_bid(Fixed::from_int(50000), Fixed::from_int(1));
    ob.update_bid(Fixed::from_int(50000), Fixed::from_int(4));
    assert_eq!(ob.bids.len(), 1);
    assert_eq!(ob.best_bid(), Some((Fixed::from_int(50000), Fixed::from_int(4))));
}

#[test]
fn test_empty_book_imbalance_is_zero() {
    let ob = OrderBook::new("BTCUSD".to_string());
    assert_eq!(ob.volume_imbalance().raw, 0);
}

#[test]
fn test_volume_imbalance_exact() {
    // (3 - 1) / (3 + 1) = 0.5 exactly.
    let mut ob = OrderBook::new("BTCUSD".to_string());
    ob.update_bid(Fixed::from_int(50000), Fixed::from_int(3));
    ob.update_ask(Fixed::from_int(50001), Fixed::from_int(1));
    assert_eq!(ob.volume_imbalance(), Fixed::from_scaled(500_000));
}

#[test]
fn test_top_bids_order() {
    let mut ob = OrderBook::new("BTCUSD".to_string());
    ob.update_bid(Fixed::from_int(49998), Fixed::from_int(1));
    ob.update_bid(Fixed::from_int(50000), Fixed::from_int(2));
    ob.update_bid(Fixed::from_int(49997), Fixed::from_int(3));
    ob.update_bid(Fixed::from_int(49999), Fixed::from_int(4));

    let top = ob.top_bids(3);
    assert_eq!(top.len(), 3);
    assert_eq!(top[0].price, Fixed::from_int(50000));
    assert_eq!(top[1].price, Fixed::from_int(49999));
    assert_eq!(top[2].price, Fixed::from_int(49998));
}

#[test]
fn test_top_asks_order() {
    let mut ob = OrderBook::new("BTCUSD".to_string());
    ob.update_ask(Fixed::from_int(50003), Fixed::from_int(1));
    ob.update_ask(Fixed::from_int(50001), Fixed::from_int(2));
    ob.update_ask(Fixed::from_int(50002), Fixed::from_int(3));

    let top = ob.top_asks(5);
    assert_eq!(top.len(), 3);
    assert_eq!(top[0].price, Fixed::from_int(50001));
    assert_eq!(top[1].price, Fixed::from_int(50002));
    assert_eq!(top[2].price, Fixed::from_int(50003));
    assert_eq!(top[1].quantity, Fixed::from_int(3));
}

#[test]
fn test_total_volumes() {
    let mut ob = OrderBook::new("BTCUSD".to_string());
    assert_eq!(ob.total_bid_volume().raw, 0);
    ob.update_bid(Fixed::from_int(50000), Fixed::from_scaled(1_500_000));
    ob.update_bid(Fixed::from_int(49999), Fixed::from_int(2));
    ob.update_ask(Fixed::from_int(50001), Fixed::from_int(1));
    assert_eq!(ob.total_bid_volume(), Fixed::from_scaled(3_500_000));
    assert_eq!(ob.total_ask_volume(), Fixed::from_int(1));
}

#[test]
fn test_spread_percentage_exact() {
    // spread 2 over mid 50001: (2 / 50001) in fixed point is 39
    // millionths, times 100 gives 3900, i.e. 0.0039 percent.
    let mut ob = OrderBook::new("BTCUSD".to_string());
    ob.update_bid(Fixed::from_int(50000), Fixed::from_int(1));
    ob.update_ask(Fixed::from_int(50002), Fixed::from_int(1));
    assert_eq!(ob.spread_percentage(), Some(Fixed::from_scaled(3900)));
}

#[test]
fn test_spread_percentage_needs_positive_mid() {
    let mut ob = OrderBook::new("BTCUSD".to_string());
    assert_eq!(ob.spread_percentage(), None);
    ob.update_bid(Fixed::from_int(-2), Fixed::from_int(1));
    ob.update_ask(Fixed::from_int(0), Fixed::from_int(1));
    // mid price is -1: no percentage is defined.
    assert_eq!(ob.spread_percentage(), None);
}

#[test]
fn test_crossed_book_spread_negative() {
    let mut ob = OrderBook::new("BTCUSD".to_string());
    ob.update_bid(Fixed::from_int(50002), Fixed::from_int(1));
    ob.update_ask(Fixed::from_int(50000), Fixed::from_int(1));
    assert_eq!(ob.spread(), Some(Fixed::from_int(-2)));
}

#[test]
fn test_mid_price_truncates_toward_zero() {
    let mut ob = OrderBook::new("BTCUSD".to_string());
    ob.update_bid(Fixed::from_int(1), Fixed::from_int(1));
    ob.update_ask(Fixed::from_int(2), Fixed::from_int(1));
    assert_eq!(ob.mid_price(), Some(Fixed::from_scaled(1_500_000)));
}

#[test]
fn test_demo_orderbook_contents() {
    let ob = market_data::demo_orderbook();
    assert_eq!(ob.symbol, "BTCUSD");
    assert_eq!(ob.best_bid(), Some((Fixed::from_int(50000), Fixed::from_scaled(1_500_000))));
    assert_eq!(ob.best_ask(), Some((Fixed::from_int(50001), Fixed::from_int(1))));
    assert_eq!(ob.mid_price(), Some(Fixed::from_scaled(50_000_500_000)));
    assert_eq!(ob.spread(), Some(Fixed::from_int(1)));
}
