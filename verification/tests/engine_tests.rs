use cex_v1_rust::engine::Engine;
use cex_v1_rust::schemas::{Balance, OrderBook, OrderSide, OrderType, StockCurrency};

// ---- Helper to build a fresh engine with dummy data ----
fn setup_engine() -> Engine {
    let mut engine = Engine::new();

    // Add BTC-USD market (stock_id: 1)
    engine.stocks.insert(
        1,
        StockCurrency {
            base_currency: String::from("BTC"),
            quote_currency: String::from("USD"),
        },
    );

    // Add SOL-USD market (stock_id: 2)
    engine.stocks.insert(
        2,
        StockCurrency {
            base_currency: String::from("SOL"),
            quote_currency: String::from("USD"),
        },
    );

    // Initialize empty orderbooks for both markets
    engine.order_books.insert(
        1,
        OrderBook {
            bids: vec![],
            asks: vec![],
            last_traded_price: None,
        },
    );
    engine.order_books.insert(
        2,
        OrderBook {
            bids: vec![],
            asks: vec![],
            last_traded_price: None,
        },
    );

    // User 1: has USD and BTC
    engine.users_balances.insert(
        1,
        vec![
            Balance {
                currency: String::from("USD"),
                locked: 0,
                available: 10000,
            },
            Balance {
                currency: String::from("BTC"),
                locked: 0,
                available: 2,
            },
        ],
    );

    // User 2: has USD and BTC
    engine.users_balances.insert(
        2,
        vec![
            Balance {
                currency: String::from("USD"),
                locked: 0,
                available: 10000,
            },
            Balance {
                currency: String::from("BTC"),
                locked: 0,
                available: 5,
            },
        ],
    );

    engine
}

// ---- Balance helpers ----
fn get_available(engine: &Engine, user_id: u32, currency: &str) -> i128 {
    engine
        .users_balances
        .get(&user_id)
        .unwrap()
        .iter()
        .find(|b| b.currency == currency)
        .map(|b| b.available)
        .unwrap_or(0)
}

fn get_locked(engine: &Engine, user_id: u32, currency: &str) -> i128 {
    engine
        .users_balances
        .get(&user_id)
        .unwrap()
        .iter()
        .find(|b| b.currency == currency)
        .map(|b| b.locked)
        .unwrap_or(0)
}

// ================================================================
// ADD ORDER TESTS
// ================================================================

#[test]
fn test_add_buy_order_locks_usd() {
    let mut engine = setup_engine();
    // User 1 places a buy order: 1 BTC at $300
    engine.add_order(1, OrderType::Limit, OrderSide::Buy, 1, 1, 300);

    assert_eq!(get_locked(&engine, 1, "USD"), 300);
    assert_eq!(get_available(&engine, 1, "USD"), 9700);
}

#[test]
fn test_add_sell_order_locks_btc() {
    let mut engine = setup_engine();
    // User 1 places a sell order: 1 BTC at $300
    engine.add_order(1, OrderType::Limit, OrderSide::Sell, 1, 1, 300);

    // sells 1 BTC, so locks 1 BTC not 300
    assert_eq!(get_locked(&engine, 1, "BTC"), 1);
    assert_eq!(get_available(&engine, 1, "BTC"), 1); // had 2, sold 1
}

#[test]
fn test_add_buy_order_appears_in_bids() {
    let mut engine = setup_engine();
    engine.add_order(1, OrderType::Limit, OrderSide::Buy, 1, 1, 300);

    let bids = &engine.order_books.get(&1).unwrap().bids;
    assert_eq!(bids.len(), 1);
    assert_eq!(bids[0].price, 300);
    assert_eq!(bids[0].quantity, 1);
    assert_eq!(bids[0].user_id, 1);
}

#[test]
fn test_add_sell_order_appears_in_asks() {
    let mut engine = setup_engine();
    engine.add_order(2, OrderType::Limit, OrderSide::Sell, 1, 1, 300);

    let asks = &engine.order_books.get(&1).unwrap().asks;
    assert_eq!(asks.len(), 1);
    assert_eq!(asks[0].price, 300);
}

#[test]
fn test_add_order_fails_if_insufficient_balance() {
    let mut engine = setup_engine();
    // User 1 tries to buy 100 BTC at $1000 each = $100,000, but only has $10,000
    engine.add_order(1, OrderType::Limit, OrderSide::Buy, 1, 100, 1000);

    // Order should NOT be added
    let bids = &engine.order_books.get(&1).unwrap().bids;
    assert_eq!(bids.len(), 0);
    // Balance should be unchanged
    assert_eq!(get_available(&engine, 1, "USD"), 10000);
    assert_eq!(get_locked(&engine, 1, "USD"), 0);
}

#[test]
fn test_bids_are_sorted_highest_price_first() {
    let mut engine = setup_engine();
    engine.add_order(1, OrderType::Limit, OrderSide::Buy, 1, 1, 200);
    engine.add_order(1, OrderType::Limit, OrderSide::Buy, 1, 1, 300);
    engine.add_order(1, OrderType::Limit, OrderSide::Buy, 1, 1, 250);

    let bids = &engine.order_books.get(&1).unwrap().bids;
    assert_eq!(bids[0].price, 300);
    assert_eq!(bids[1].price, 250);
    assert_eq!(bids[2].price, 200);
}

#[test]
fn test_asks_are_sorted_lowest_price_first() {
    let mut engine = setup_engine();
    engine.add_order(2, OrderType::Limit, OrderSide::Sell, 1, 1, 300);
    engine.add_order(2, OrderType::Limit, OrderSide::Sell, 1, 1, 200);
    engine.add_order(2, OrderType::Limit, OrderSide::Sell, 1, 1, 250);

    let asks = &engine.order_books.get(&1).unwrap().asks;
    assert_eq!(asks[0].price, 200);
    assert_eq!(asks[1].price, 250);
    assert_eq!(asks[2].price, 300);
}

// ================================================================
// REMOVE ORDER TESTS
// ================================================================

#[test]
fn test_remove_bid() {
    let mut engine = setup_engine();
    engine.add_order(1, OrderType::Limit, OrderSide::Buy, 1, 1, 300);

    let order_id = engine.order_books.get(&1).unwrap().bids[0].order_id;
    engine.remove_order(1, order_id, OrderSide::Buy);

    let bids = &engine.order_books.get(&1).unwrap().bids;
    assert_eq!(bids.len(), 0);
}

#[test]
fn test_remove_ask() {
    let mut engine = setup_engine();
    engine.add_order(2, OrderType::Limit, OrderSide::Sell, 1, 1, 300);

    let order_id = engine.order_books.get(&1).unwrap().asks[0].order_id;
    engine.remove_order(1, order_id, OrderSide::Sell);

    let asks = &engine.order_books.get(&1).unwrap().asks;
    assert_eq!(asks.len(), 0);
}

// ================================================================
// CANCEL ORDER TESTS
// ================================================================

#[test]
fn test_cancel_buy_order_releases_usd() {
    let mut engine = setup_engine();
    // Place order: lock $300
    engine.add_order(1, OrderType::Limit, OrderSide::Buy, 1, 1, 300);
    assert_eq!(get_locked(&engine, 1, "USD"), 300);

    let order_id = engine.order_books.get(&1).unwrap().bids[0].order_id;
    engine.cancel_order(1, order_id, OrderSide::Buy);

    // Funds should be released
    assert_eq!(get_locked(&engine, 1, "USD"), 0);
    assert_eq!(get_available(&engine, 1, "USD"), 10000);
    // Order should be gone
    assert_eq!(engine.order_books.get(&1).unwrap().bids.len(), 0);
}

#[test]
fn test_cancel_sell_order_releases_btc() {
    let mut engine = setup_engine();
    engine.add_order(2, OrderType::Limit, OrderSide::Sell, 1, 1, 300);

    let order_id = engine.order_books.get(&1).unwrap().asks[0].order_id;
    engine.cancel_order(1, order_id, OrderSide::Sell);

    assert_eq!(get_locked(&engine, 1, "BTC"), 0);
    assert_eq!(engine.order_books.get(&1).unwrap().asks.len(), 0);
}

// ================================================================
// SETTLE TRADE TESTS
// ================================================================

#[test]
fn test_settle_trade_full_fill() {
    let mut engine = setup_engine();

    // User 1 buys 1 BTC at $300
    engine.add_order(1, OrderType::Limit, OrderSide::Buy, 1, 1, 300);
    // User 2 sells 1 BTC at $300
    engine.add_order(2, OrderType::Limit, OrderSide::Sell, 1, 1, 300);

    let bid_id = engine.order_books.get(&1).unwrap().bids[0].order_id;
    let ask_id = engine.order_books.get(&1).unwrap().asks[0].order_id;

    engine.settle_trade(300, 1, 1, bid_id, ask_id);

    // Buyer (user 1): USD locked reduced, BTC available increased
    assert_eq!(get_locked(&engine, 1, "USD"), 0);
    assert_eq!(get_available(&engine, 1, "BTC"), 3); // had 2, got 1

    // Seller (user 2): BTC locked should be 0 after full fill
    assert_eq!(get_locked(&engine, 2, "BTC"), 0); // was 1 locked, now released
    assert_eq!(get_available(&engine, 2, "BTC"), 4); // had 5, sold 1
    assert_eq!(get_available(&engine, 2, "USD"), 10300); // had 10000, got 300

    // Both orders should be removed (fully filled)
    assert_eq!(engine.order_books.get(&1).unwrap().bids.len(), 0);
    assert_eq!(engine.order_books.get(&1).unwrap().asks.len(), 0);

    // Last traded price should be updated
    assert_eq!(
        engine.order_books.get(&1).unwrap().last_traded_price,
        Some(300)
    );
}

#[test]
fn test_settle_trade_partial_fill() {
    let mut engine = setup_engine();

    // User 1 buys 2 BTC at $300
    engine.add_order(1, OrderType::Limit, OrderSide::Buy, 1, 2, 300);
    // User 2 sells 1 BTC at $300
    engine.add_order(2, OrderType::Limit, OrderSide::Sell, 1, 1, 300);

    let bid_id = engine.order_books.get(&1).unwrap().bids[0].order_id;
    let ask_id = engine.order_books.get(&1).unwrap().asks[0].order_id;

    // Only 1 BTC matched
    engine.settle_trade(300, 1, 1, bid_id, ask_id);

    // Ask is fully filled and removed, bid is partially filled and stays
    assert_eq!(engine.order_books.get(&1).unwrap().asks.len(), 0);
    assert_eq!(engine.order_books.get(&1).unwrap().bids.len(), 1);

    // Bid's filled_quantity should be updated
    assert_eq!(
        engine.order_books.get(&1).unwrap().bids[0].filled_quantity,
        1
    );
}
