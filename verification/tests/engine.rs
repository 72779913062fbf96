use match_engine::engine::{EngineError, MatchingEngine, TradingPair};
use match_engine::orderbook::{BidOrAsk, Order};

#[test]
fn place_limit_order_needs_registered_market() {
    let mut engine = MatchingEngine::new();
    let pair = TradingPair::new("BTC".to_string(), "USD".to_string());
    engine.add_new_market(pair.clone());

    let buy_order = Order::new(4, BidOrAsk::Bid, 6);
    let placed = engine.place_limit_order(pair, 10, buy_order);
    assert_eq!(placed, Ok(()));
}

#[test]
fn unregistered_pair_is_market_not_found() {
    let mut engine = MatchingEngine::new();
    let btc = TradingPair::new("BTC".to_string(), "USD".to_string());
    engine.add_new_market(btc.clone());
    let order = Order::new(1, BidOrAsk::Bid, 6);
    engine
        .place_limit_order(btc.clone(), 10, order)
        .unwrap();

    let eth = TradingPair::new("ETH".to_string(), "USD".to_string());
    let refused = engine.place_limit_order(eth, 10, Order::new(2, BidOrAsk::Bid, 6));
    assert_eq!(refused, Err(EngineError::MarketNotFound));

    // the registered market's book is untouched by the refused submission
    assert_eq!(engine.orderbooks.len(), 1);
    let bids = engine.orderbooks[0].1.bid_limits(None);
    assert_eq!(bids.len(), 1);
    assert_eq!(bids[0].price, 10);
    assert_eq!(bids[0].total_volume(), 6);
}

#[test]
fn duplicate_market_keeps_existing_book() {
    let mut engine = MatchingEngine::new();
    let pair = TradingPair::new("BTC".to_string(), "USD".to_string());
    engine.add_new_market(pair.clone());
    engine
        .place_limit_order(pair.clone(), 10, Order::new(1, BidOrAsk::Bid, 5))
        .unwrap();

    engine.add_new_market(pair.clone());

    assert_eq!(engine.orderbooks.len(), 1);
    let bids = engine.orderbooks[0].1.bid_limits(None);
    assert_eq!(bids[0].total_volume(), 5);
}

#[test]
fn pairs_compare_by_symbols() {
    let a = TradingPair::new("BTC".to_string(), "USD".to_string());
    let b = TradingPair::new("BTC".to_string(), "USD".to_string());
    let c = TradingPair::new("ETH".to_string(), "USD".to_string());
    assert!(a == b);
    assert!(a != c);
}
