use match_engine::orderbook::{BidOrAsk, Execution, Limit, Order, OrderBook};

#[test]
fn orderbook_fill_market_order_ask() {
    let mut orderbook = OrderBook::new();
    orderbook.add_limit_order(500, Order::new(1, BidOrAsk::Ask, 10));
    orderbook.add_limit_order(100, Order::new(2, BidOrAsk::Ask, 10));
    orderbook.add_limit_order(200, Order::new(3, BidOrAsk::Ask, 10));
    orderbook.add_limit_order(300, Order::new(4, BidOrAsk::Ask, 10));

    let mut market_order = Order::new(5, BidOrAsk::Bid, 10);
    let executions = orderbook.fill_market_order(&mut market_order);
    println!("{:?}", executions);

    let ask_limits = orderbook.ask_limits(None);
    let matched_limit = ask_limits.get(0).unwrap();
    assert_eq!(matched_limit.price, 100);
    assert!(market_order.is_filled());

    assert!(matched_limit.orders.is_empty());

    println!("{:?}", orderbook.ask_limits(None));
}

#[test]
fn orderbook_fill_limit_order_ask() {
    let mut orderbook = OrderBook::new();
    orderbook.add_limit_order(500, Order::new(1, BidOrAsk::Ask, 10));
    orderbook.add_limit_order(100, Order::new(2, BidOrAsk::Ask, 10));
    orderbook.add_limit_order(200, Order::new(3, BidOrAsk::Ask, 10));
    orderbook.add_limit_order(300, Order::new(4, BidOrAsk::Ask, 10));

    let mut limit_order = Order::new(5, BidOrAsk::Bid, 30);
    let executions = orderbook.fill_limit_order(&mut limit_order, 210);
    println!("{:?}", executions);

    assert_eq!(limit_order.size, 10);
    println!("{:?}", orderbook.ask_limits(None));
}

#[test]
fn limit_total_volume() {
    let price = 10000;
    let mut limit = Limit::new(price);

    let buy_limit_order_a = Order::new(1, BidOrAsk::Bid, 100);
    let buy_limit_order_b = Order::new(2, BidOrAsk::Bid, 100);
    limit.add_order(buy_limit_order_a);
    limit.add_order(buy_limit_order_b);

    assert_eq!(limit.total_volume(), 200);

    println!("{:?}", limit);
}

#[test]
fn limit_order_multi_fill() {
    let price = 10000;
    let mut limit = Limit::new(price);

    let buy_limit_order_a = Order::new(1, BidOrAsk::Bid, 100);
    let buy_limit_order_b = Order::new(2, BidOrAsk::Bid, 100);
    limit.add_order(buy_limit_order_a);
    limit.add_order(buy_limit_order_b);

    let mut market_sell_order = Order::new(3, BidOrAsk::Ask, 199);
    limit.fill_order(&mut market_sell_order);

    assert!(market_sell_order.is_filled());
    assert_eq!(limit.orders.first().unwrap().size, 1);

    println!("{:?}", limit);
}

#[test]
fn limit_order_single_fill() {
    let price = 10000;
    let mut limit = Limit::new(price);

    let buy_limit_order = Order::new(1, BidOrAsk::Bid, 100);
    limit.add_order(buy_limit_order);

    let mut market_sell_order = Order::new(2, BidOrAsk::Ask, 99);
    limit.fill_order(&mut market_sell_order);

    println!("{:?}", limit);

    assert!(market_sell_order.is_filled());
    assert_eq!(limit.orders.first().unwrap().size, 1);
}

fn sum_aggressor(execs: &[Execution]) -> u64 {
    execs.iter().step_by(2).map(|e| e.size).sum()
}

fn sum_resident(execs: &[Execution]) -> u64 {
    execs.iter().skip(1).step_by(2).map(|e| e.size).sum()
}

#[test]
fn fill_conserves_quantity() {
    let mut orderbook = OrderBook::new();
    orderbook.add_limit_order(100, Order::new(1, BidOrAsk::Ask, 7));
    orderbook.add_limit_order(100, Order::new(2, BidOrAsk::Ask, 5));
    orderbook.add_limit_order(120, Order::new(3, BidOrAsk::Ask, 9));

    let mut bid = Order::new(4, BidOrAsk::Bid, 15);
    let executions = orderbook.fill_market_order(&mut bid);

    assert_eq!(executions.len() % 2, 0);
    assert_eq!(sum_aggressor(&executions), 15 - bid.size);
    assert_eq!(sum_resident(&executions), 15 - bid.size);
    assert_eq!(bid.size, 0);
}

#[test]
fn fill_pairs_attribute_both_parties() {
    let mut orderbook = OrderBook::new();
    orderbook.add_limit_order(50, Order::new(9, BidOrAsk::Ask, 4));

    let mut bid = Order::new(7, BidOrAsk::Bid, 10);
    let executions = orderbook.fill_market_order(&mut bid);

    assert_eq!(executions.len(), 2);
    assert_eq!(executions[0].id, 7);
    assert_eq!(executions[0].size, 4);
    assert_eq!(executions[0].bid_or_ask, BidOrAsk::Bid);
    assert_eq!(executions[0].price, 50);
    assert_eq!(executions[1].id, 9);
    assert_eq!(executions[1].size, 4);
    assert_eq!(executions[1].bid_or_ask, BidOrAsk::Ask);
    assert_eq!(executions[1].price, 50);
    assert_eq!(bid.size, 6);
}

#[test]
fn sizes_never_increase() {
    let mut orderbook = OrderBook::new();
    orderbook.add_limit_order(100, Order::new(1, BidOrAsk::Ask, 10));
    orderbook.add_limit_order(200, Order::new(2, BidOrAsk::Ask, 10));

    let mut bid = Order::new(3, BidOrAsk::Bid, 13);
    orderbook.fill_market_order(&mut bid);

    assert_eq!(bid.size, 0);
    let asks = orderbook.ask_limits(None);
    assert_eq!(asks[0].total_volume(), 0);
    assert_eq!(asks[1].total_volume(), 7);
}

#[test]
fn filled_order_fill_is_noop() {
    let mut orderbook = OrderBook::new();
    orderbook.add_limit_order(100, Order::new(1, BidOrAsk::Ask, 10));

    let mut filled = Order::new(2, BidOrAsk::Bid, 10);
    orderbook.fill_market_order(&mut filled);
    assert!(filled.is_filled());

    let executions = orderbook.fill_market_order(&mut filled);
    assert!(executions.is_empty());
    assert_eq!(filled.size, 0);
    let asks = orderbook.ask_limits(None);
    assert_eq!(asks.len(), 1);
    assert_eq!(asks[0].price, 100);
    assert_eq!(asks[0].total_volume(), 0);
}

#[test]
fn limit_boundary_price_is_acceptable() {
    let mut orderbook = OrderBook::new();
    orderbook.add_limit_order(200, Order::new(1, BidOrAsk::Ask, 10));

    let mut bid = Order::new(2, BidOrAsk::Bid, 10);
    let executions = orderbook.fill_limit_order(&mut bid, 200);
    assert_eq!(executions.len(), 2);
    assert!(bid.is_filled());
}

#[test]
fn limit_bid_never_lifts_expensive_asks() {
    let mut orderbook = OrderBook::new();
    orderbook.add_limit_order(100, Order::new(1, BidOrAsk::Ask, 10));
    orderbook.add_limit_order(300, Order::new(2, BidOrAsk::Ask, 10));

    let mut bid = Order::new(3, BidOrAsk::Bid, 30);
    orderbook.fill_limit_order(&mut bid, 210);

    assert_eq!(bid.size, 20);
    let asks = orderbook.ask_limits(None);
    assert_eq!(asks[1].price, 300);
    assert_eq!(asks[1].total_volume(), 10);
}

#[test]
fn ask_walks_bids_highest_first() {
    let mut orderbook = OrderBook::new();
    orderbook.add_limit_order(90, Order::new(1, BidOrAsk::Bid, 10));
    orderbook.add_limit_order(110, Order::new(2, BidOrAsk::Bid, 10));
    orderbook.add_limit_order(100, Order::new(3, BidOrAsk::Bid, 10));

    let mut ask = Order::new(4, BidOrAsk::Ask, 10);
    let executions = orderbook.fill_market_order(&mut ask);

    assert!(ask.is_filled());
    assert_eq!(executions[1].id, 2);
    assert_eq!(executions[1].price, 110);
    let bids = orderbook.bid_limits(None);
    assert_eq!(bids[0].price, 110);
    assert_eq!(bids[0].total_volume(), 0);
    assert_eq!(bids[1].price, 100);
    assert_eq!(bids[1].total_volume(), 10);
    assert_eq!(bids[2].price, 90);
    assert_eq!(bids[2].total_volume(), 10);
}

#[test]
fn limit_ask_ignores_low_bids() {
    let mut orderbook = OrderBook::new();
    orderbook.add_limit_order(90, Order::new(1, BidOrAsk::Bid, 10));
    orderbook.add_limit_order(110, Order::new(2, BidOrAsk::Bid, 10));

    let mut ask = Order::new(3, BidOrAsk::Ask, 20);
    orderbook.fill_limit_order(&mut ask, 100);

    assert_eq!(ask.size, 10);
    let bids = orderbook.bid_limits(None);
    assert_eq!(bids[1].price, 90);
    assert_eq!(bids[1].total_volume(), 10);
}

#[test]
fn bid_limits_filters_by_limit_price() {
    let mut orderbook = OrderBook::new();
    orderbook.add_limit_order(90, Order::new(1, BidOrAsk::Bid, 10));
    orderbook.add_limit_order(110, Order::new(2, BidOrAsk::Bid, 10));

    let bids = orderbook.bid_limits(Some(100));
    assert_eq!(bids.len(), 1);
    assert_eq!(bids[0].price, 110);

    let asks_view = orderbook.ask_limits(Some(100));
    assert!(asks_view.is_empty());
}

#[test]
fn same_price_orders_share_a_level() {
    let mut orderbook = OrderBook::new();
    orderbook.add_limit_order(100, Order::new(1, BidOrAsk::Ask, 3));
    orderbook.add_limit_order(100, Order::new(2, BidOrAsk::Ask, 4));

    let asks = orderbook.ask_limits(None);
    assert_eq!(asks.len(), 1);
    assert_eq!(asks[0].total_volume(), 7);
    assert_eq!(asks[0].orders[0].id, 1);
    assert_eq!(asks[0].orders[1].id, 2);
}

#[test]
fn empty_level_has_no_volume() {
    let limit = Limit::new(42);
    assert_eq!(limit.total_volume(), 0);
    assert!(limit.orders.is_empty());
}

#[test]
fn empty_book_fills_nothing() {
    let mut orderbook = OrderBook::new();
    let mut bid = Order::new(1, BidOrAsk::Bid, 5);
    let executions = orderbook.fill_market_order(&mut bid);
    assert!(executions.is_empty());
    assert_eq!(bid.size, 5);
}

#[test]
fn order_and_execution_fields() {
    let order = Order::new(11, BidOrAsk::Bid, 17);
    assert_eq!(order.id, 11);
    assert_eq!(order.size, 17);
    assert_eq!(order.bid_or_ask, BidOrAsk::Bid);
    assert!(!order.is_filled());

    let execution = Execution::new(&order, 5, 250);
    assert_eq!(execution.id, 11);
    assert_eq!(execution.size, 5);
    assert_eq!(execution.bid_or_ask, BidOrAsk::Bid);
    assert_eq!(execution.price, 250);
}
