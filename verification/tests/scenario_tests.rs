use cex_v1_rust::api::{cancel_order, get_orderbook, place_order, CancelOrderReq, PlaceOrderReq};
use cex_v1_rust::engine::Engine;
use cex_v1_rust::schemas::{Balance, Order, OrderBook, OrderSide, OrderType, StockCurrency};

fn market(engine: &mut Engine, id: u32, base: &str, quote: &str) {
    engine.stocks.insert(
        id,
        StockCurrency { base_currency: String::from(base), quote_currency: String::from(quote) },
    );
    engine.order_books.insert(id, OrderBook { bids: vec![], asks: vec![], last_traded_price: None });
}

fn balance(currency: &str, available: i128) -> Balance {
    Balance { currency: String::from(currency), locked: 0, available }
}

fn two_users() -> Engine {
    let mut engine = Engine::new();
    market(&mut engine, 1, "BTC", "USD");
    engine.users_balances.insert(1, vec![balance("USD", 10000), balance("BTC", 2)]);
    engine.users_balances.insert(2, vec![balance("USD", 10000), balance("BTC", 5)]);
    engine
}

fn find(engine: &Engine, user: u32, currency: &str) -> Option<(i128, i128)> {
    engine
        .users_balances
        .get(&user)
        .unwrap()
        .iter()
        .find(|b| b.currency == currency)
        .map(|b| (b.locked, b.available))
}

fn holding(engine: &Engine, user: u32, currency: &str) -> i128 {
    find(engine, user, currency).map(|(l, a)| l + a).unwrap_or(0)
}

fn book(engine: &Engine, id: u32) -> &OrderBook {
    engine.order_books.get(&id).unwrap()
}

#[test]
fn new_engine_is_empty() {
    let engine = Engine::new();
    assert_eq!(engine.order_number, 0);
    assert!(engine.stocks.is_empty());
    assert!(engine.order_books.is_empty());
    assert!(engine.users_balances.is_empty());
}

#[test]
fn order_ids_count_up_from_zero() {
    let mut engine = two_users();
    engine.add_order(1, OrderType::Limit, OrderSide::Buy, 1, 1, 100);
    engine.add_order(2, OrderType::Market, OrderSide::Sell, 1, 1, 500);
    engine.add_order(1, OrderType::Limit, OrderSide::Buy, 1, 1, 90);
    assert_eq!(engine.order_number, 3);
    let b = book(&engine, 1);
    assert_eq!(b.bids[0].order_id, 0);
    assert_eq!(b.bids[1].order_id, 2);
    assert_eq!(b.asks[0].order_id, 1);
    assert_eq!(b.asks[0].order_type, OrderType::Market);
    assert_eq!(b.asks[0].order_side, OrderSide::Sell);
    assert_eq!(b.asks[0].stock, 1);
    assert_eq!(b.asks[0].filled_quantity, 0);
}

#[test]
fn rejected_order_takes_no_id() {
    let mut engine = two_users();
    engine.add_order(1, OrderType::Limit, OrderSide::Sell, 1, 3, 100);
    assert_eq!(engine.order_number, 0);
    assert_eq!(find(&engine, 1, "BTC"), Some((0, 2)));
    assert_eq!(book(&engine, 1).asks.len(), 0);
}

#[test]
fn exact_balance_is_enough() {
    let mut engine = two_users();
    engine.add_order(1, OrderType::Limit, OrderSide::Buy, 1, 2, 5000);
    assert_eq!(find(&engine, 1, "USD"), Some((10000, 0)));
    assert_eq!(book(&engine, 1).bids.len(), 1);
}

#[test]
fn user_without_balances_places_nothing() {
    let mut engine = two_users();
    engine.add_order(7, OrderType::Limit, OrderSide::Buy, 1, 1, 1);
    assert_eq!(engine.order_number, 0);
    assert_eq!(book(&engine, 1).bids.len(), 0);
}

#[test]
fn market_without_book_locks_but_drops_the_order() {
    let mut engine = two_users();
    engine.stocks.insert(
        3,
        StockCurrency { base_currency: String::from("ETH"), quote_currency: String::from("USD") },
    );
    engine.add_order(1, OrderType::Limit, OrderSide::Buy, 3, 2, 100);
    assert_eq!(find(&engine, 1, "USD"), Some((200, 9800)));
    assert_eq!(engine.order_number, 1);
    assert!(engine.order_books.get(&3).is_none());
}

#[test]
fn equal_prices_put_the_newest_first() {
    let mut engine = two_users();
    engine.add_order(1, OrderType::Limit, OrderSide::Buy, 1, 1, 300);
    engine.add_order(2, OrderType::Limit, OrderSide::Buy, 1, 1, 300);
    engine.add_order(1, OrderType::Limit, OrderSide::Sell, 1, 1, 400);
    engine.add_order(2, OrderType::Limit, OrderSide::Sell, 1, 1, 400);
    let b = book(&engine, 1);
    assert_eq!(b.bids[0].order_id, 1);
    assert_eq!(b.bids[1].order_id, 0);
    assert_eq!(b.asks[0].order_id, 3);
    assert_eq!(b.asks[1].order_id, 2);
}

#[test]
fn remove_unknown_id_changes_nothing() {
    let mut engine = two_users();
    engine.add_order(1, OrderType::Limit, OrderSide::Buy, 1, 1, 300);
    engine.remove_order(1, 42, OrderSide::Buy);
    engine.remove_order(1, 0, OrderSide::Sell);
    assert_eq!(book(&engine, 1).bids.len(), 1);
}

#[test]
fn remove_takes_every_order_with_the_id() {
    let mut engine = two_users();
    let o = Order {
        order_id: 9,
        user_id: 1,
        quantity: 1,
        price: 10,
        stock: 1,
        filled_quantity: 0,
        order_type: OrderType::Limit,
        order_side: OrderSide::Buy,
    };
    let other = Order { order_id: 4, ..o };
    engine.order_books.get_mut(&1).unwrap().bids = vec![o, other, o];
    engine.remove_order(1, 9, OrderSide::Buy);
    assert_eq!(book(&engine, 1).bids, vec![other]);
}

#[test]
fn cancelling_a_bid_undoes_placing_it() {
    let mut engine = two_users();
    engine.add_order(1, OrderType::Limit, OrderSide::Buy, 1, 3, 250);
    assert_eq!(find(&engine, 1, "USD"), Some((750, 9250)));
    engine.cancel_order(1, 0, OrderSide::Buy);
    assert_eq!(find(&engine, 1, "USD"), Some((0, 10000)));
    assert_eq!(find(&engine, 1, "BTC"), Some((0, 2)));
    assert_eq!(book(&engine, 1).bids.len(), 0);
    assert_eq!(engine.order_number, 1);
}

#[test]
fn cancelling_an_ask_releases_its_quantity() {
    let mut engine = two_users();
    engine.add_order(2, OrderType::Limit, OrderSide::Sell, 1, 1, 300);
    assert_eq!(find(&engine, 2, "BTC"), Some((1, 4)));
    engine.cancel_order(1, 0, OrderSide::Sell);
    assert_eq!(find(&engine, 2, "BTC"), Some((0, 5)));
    assert_eq!(find(&engine, 2, "USD"), Some((0, 10000)));
    assert_eq!(book(&engine, 1).asks.len(), 0);
}

#[test]
fn cancelling_an_ask_undoes_placing_it() {
    let mut engine = two_users();
    engine.add_order(2, OrderType::Limit, OrderSide::Sell, 1, 3, 700);
    engine.cancel_order(1, 0, OrderSide::Sell);
    assert_eq!(find(&engine, 2, "BTC"), Some((0, 5)));
    assert_eq!(find(&engine, 2, "USD"), Some((0, 10000)));
    assert_eq!(book(&engine, 1).asks.len(), 0);
    assert_eq!(engine.order_number, 1);
}

#[test]
fn cancelling_a_partly_filled_ask_releases_the_rest() {
    let mut engine = two_users();
    engine.add_order(2, OrderType::Limit, OrderSide::Sell, 1, 3, 100);
    engine.add_order(1, OrderType::Limit, OrderSide::Buy, 1, 1, 100);
    engine.match_order(1);
    assert_eq!(find(&engine, 2, "BTC"), Some((2, 2)));
    engine.cancel_order(1, 0, OrderSide::Sell);
    assert_eq!(find(&engine, 2, "BTC"), Some((0, 4)));
    assert_eq!(find(&engine, 2, "USD"), Some((0, 10100)));
}

#[test]
fn cancelling_a_partly_filled_bid_releases_the_rest() {
    let mut engine = two_users();
    engine.add_order(1, OrderType::Limit, OrderSide::Buy, 1, 3, 100);
    engine.add_order(2, OrderType::Limit, OrderSide::Sell, 1, 1, 100);
    engine.match_order(1);
    assert_eq!(find(&engine, 1, "USD"), Some((200, 9700)));
    engine.cancel_order(1, 0, OrderSide::Buy);
    assert_eq!(find(&engine, 1, "USD"), Some((0, 9900)));
    assert_eq!(find(&engine, 1, "BTC"), Some((0, 3)));
}

#[test]
fn matching_trades_at_the_ask_price() {
    let mut engine = two_users();
    engine.add_order(1, OrderType::Limit, OrderSide::Buy, 1, 1, 310);
    engine.add_order(2, OrderType::Limit, OrderSide::Sell, 1, 1, 300);
    engine.match_order(1);
    // The buyer locked 310 and paid 300: 10 stay locked.
    assert_eq!(find(&engine, 1, "USD"), Some((10, 9690)));
    assert_eq!(find(&engine, 1, "BTC"), Some((0, 3)));
    assert_eq!(find(&engine, 2, "USD"), Some((0, 10300)));
    assert_eq!(find(&engine, 2, "BTC"), Some((0, 4)));
    assert_eq!(book(&engine, 1).last_traded_price, Some(300));
    assert_eq!(book(&engine, 1).bids.len(), 0);
    assert_eq!(book(&engine, 1).asks.len(), 0);
}

#[test]
fn matching_stops_when_the_book_is_not_crossed() {
    let mut engine = two_users();
    engine.add_order(1, OrderType::Limit, OrderSide::Buy, 1, 1, 290);
    engine.add_order(2, OrderType::Limit, OrderSide::Sell, 1, 1, 300);
    engine.match_order(1);
    assert_eq!(book(&engine, 1).bids.len(), 1);
    assert_eq!(book(&engine, 1).asks.len(), 1);
    assert_eq!(book(&engine, 1).last_traded_price, None);
}

#[test]
fn matching_an_empty_book_of_an_unknown_market_is_fine() {
    let mut engine = Engine::new();
    engine.order_books.insert(5, OrderBook { bids: vec![], asks: vec![], last_traded_price: None });
    engine.match_order(5);
    assert_eq!(engine.order_books.get(&5).unwrap().bids.len(), 0);
}

#[test]
fn matching_runs_several_rounds() {
    let mut engine = two_users();
    engine.add_order(1, OrderType::Limit, OrderSide::Buy, 1, 2, 300);
    engine.add_order(2, OrderType::Limit, OrderSide::Sell, 1, 1, 290);
    engine.add_order(2, OrderType::Limit, OrderSide::Sell, 1, 1, 295);
    engine.match_order(1);
    let b = book(&engine, 1);
    // The bid of 2 trades 1 in each round; once fully filled it leaves.
    assert_eq!(b.asks.len(), 0);
    assert_eq!(b.bids.len(), 0);
    assert_eq!(b.last_traded_price, Some(295));
    assert_eq!(find(&engine, 1, "USD"), Some((15, 9400)));
    assert_eq!(find(&engine, 1, "BTC"), Some((0, 4)));
    assert_eq!(find(&engine, 2, "USD"), Some((0, 10585)));
    assert_eq!(find(&engine, 2, "BTC"), Some((0, 3)));
}

#[test]
fn an_order_filled_over_two_trades_leaves_the_book() {
    let mut engine = two_users();
    engine.add_order(1, OrderType::Limit, OrderSide::Buy, 1, 2, 300);
    engine.add_order(2, OrderType::Limit, OrderSide::Sell, 1, 1, 300);
    engine.add_order(2, OrderType::Limit, OrderSide::Sell, 1, 1, 300);
    engine.match_order(1);
    let b = book(&engine, 1);
    assert_eq!(b.bids.len(), 0);
    assert_eq!(b.asks.len(), 0);
    assert_eq!(b.last_traded_price, Some(300));
    assert_eq!(find(&engine, 1, "USD"), Some((0, 9400)));
    assert_eq!(find(&engine, 1, "BTC"), Some((0, 4)));
    assert_eq!(find(&engine, 2, "BTC"), Some((0, 3)));
    assert_eq!(find(&engine, 2, "USD"), Some((0, 10600)));
}

#[test]
fn partly_filled_order_stays_in_place() {
    let mut engine = two_users();
    engine.add_order(1, OrderType::Limit, OrderSide::Buy, 1, 3, 300);
    engine.add_order(1, OrderType::Limit, OrderSide::Buy, 1, 1, 200);
    engine.add_order(2, OrderType::Limit, OrderSide::Sell, 1, 1, 300);
    engine.match_order(1);
    let b = book(&engine, 1);
    assert_eq!(b.bids.len(), 2);
    assert_eq!(b.bids[0].order_id, 0);
    assert_eq!(b.bids[0].filled_quantity, 1);
    assert_eq!(b.bids[1].order_id, 1);
}

#[test]
fn a_round_trades_the_smaller_full_quantity() {
    let mut engine = two_users();
    engine.add_order(1, OrderType::Limit, OrderSide::Buy, 1, 2, 300);
    engine.add_order(2, OrderType::Limit, OrderSide::Sell, 1, 1, 300);
    engine.match_order(1);
    assert_eq!(book(&engine, 1).bids[0].filled_quantity, 1);
    engine.add_order(2, OrderType::Limit, OrderSide::Sell, 1, 2, 300);
    engine.match_order(1);
    // The round trades min(2, 2) = 2, though only 1 of the bid was left.
    assert_eq!(book(&engine, 1).bids.len(), 0);
    assert_eq!(book(&engine, 1).asks.len(), 0);
    assert_eq!(find(&engine, 1, "USD"), Some((-300, 9400)));
    assert_eq!(find(&engine, 1, "BTC"), Some((0, 5)));
}

#[test]
fn trades_conserve_what_the_parties_hold() {
    let mut engine = two_users();
    engine.add_order(1, OrderType::Limit, OrderSide::Buy, 1, 2, 320);
    engine.add_order(2, OrderType::Limit, OrderSide::Sell, 1, 1, 300);
    let usd = holding(&engine, 1, "USD") + holding(&engine, 2, "USD");
    let btc = holding(&engine, 1, "BTC") + holding(&engine, 2, "BTC");
    engine.match_order(1);
    assert_eq!(holding(&engine, 1, "USD") + holding(&engine, 2, "USD"), usd);
    assert_eq!(holding(&engine, 1, "BTC") + holding(&engine, 2, "BTC"), btc);
    assert_eq!(usd, 20000);
    assert_eq!(btc, 7);
}

#[test]
fn placing_keeps_holdings() {
    let mut engine = two_users();
    engine.add_order(1, OrderType::Limit, OrderSide::Buy, 1, 2, 320);
    engine.add_order(1, OrderType::Limit, OrderSide::Sell, 1, 1, 900);
    assert_eq!(holding(&engine, 1, "USD"), 10000);
    assert_eq!(holding(&engine, 1, "BTC"), 2);
}

#[test]
fn seller_without_quote_balance_gets_a_new_one() {
    let mut engine = two_users();
    engine.users_balances.insert(3, vec![balance("BTC", 4)]);
    engine.add_order(1, OrderType::Limit, OrderSide::Buy, 1, 1, 300);
    engine.add_order(3, OrderType::Limit, OrderSide::Sell, 1, 1, 300);
    engine.match_order(1);
    let bals = engine.users_balances.get(&3).unwrap();
    assert_eq!(bals.len(), 2);
    assert_eq!(bals[1].currency, "USD");
    assert_eq!((bals[1].locked, bals[1].available), (0, 300));
    assert_eq!(find(&engine, 3, "BTC"), Some((0, 3)));
}

#[test]
fn buyer_without_base_balance_gets_a_new_one() {
    let mut engine = two_users();
    engine.users_balances.insert(4, vec![balance("USD", 1000)]);
    engine.add_order(4, OrderType::Limit, OrderSide::Buy, 1, 2, 100);
    engine.add_order(2, OrderType::Limit, OrderSide::Sell, 1, 2, 100);
    engine.match_order(1);
    assert_eq!(find(&engine, 4, "BTC"), Some((0, 2)));
    assert_eq!(find(&engine, 4, "USD"), Some((0, 800)));
}

#[test]
fn credit_to_a_user_without_balances_is_lost() {
    let mut engine = two_users();
    let bid = Order {
        order_id: 0,
        user_id: 8,
        quantity: 1,
        price: 50,
        stock: 1,
        filled_quantity: 0,
        order_type: OrderType::Limit,
        order_side: OrderSide::Buy,
    };
    let ask = Order { order_id: 1, user_id: 2, order_side: OrderSide::Sell, ..bid };
    let b = engine.order_books.get_mut(&1).unwrap();
    b.bids.push(bid);
    b.asks.push(ask);
    engine.settle_trade(50, 1, 1, 0, 1);
    assert!(engine.users_balances.get(&8).is_none());
    assert_eq!(find(&engine, 2, "USD"), Some((0, 10050)));
    assert_eq!(find(&engine, 2, "BTC"), Some((-1, 5)));
}

#[test]
fn filled_quantity_stops_at_the_top() {
    let mut engine = two_users();
    let bid = Order {
        order_id: 0,
        user_id: 1,
        quantity: u32::MAX,
        price: 1,
        stock: 1,
        filled_quantity: u32::MAX - 30,
        order_type: OrderType::Limit,
        order_side: OrderSide::Buy,
    };
    let ask = Order { order_id: 1, user_id: 2, order_side: OrderSide::Sell, quantity: 100, filled_quantity: 0, ..bid };
    let b = engine.order_books.get_mut(&1).unwrap();
    b.bids.push(bid);
    b.asks.push(ask);
    engine.settle_trade(1, 20, 1, 0, 1);
    assert_eq!(book(&engine, 1).bids[0].filled_quantity, u32::MAX - 10);
    // Filling past the top stops there, which is the quantity: the bid leaves.
    engine.settle_trade(1, 20, 1, 0, 1);
    assert_eq!(book(&engine, 1).bids.len(), 0);
    assert_eq!(book(&engine, 1).asks[0].filled_quantity, 40);
}

#[test]
fn balances_stop_at_the_ends_of_their_range() {
    let mut engine = two_users();
    engine.users_balances.insert(2, vec![Balance { currency: String::from("USD"), locked: 0, available: i128::MAX - 100 }, balance("BTC", 5)]);
    engine.add_order(1, OrderType::Limit, OrderSide::Buy, 1, 1, 300);
    engine.add_order(2, OrderType::Limit, OrderSide::Sell, 1, 1, 300);
    engine.match_order(1);
    assert_eq!(find(&engine, 2, "USD"), Some((0, i128::MAX)));
}

#[test]
fn only_the_first_balance_in_a_currency_is_used() {
    let mut engine = two_users();
    engine.users_balances.insert(1, vec![balance("USD", 100), balance("USD", 5000)]);
    engine.add_order(1, OrderType::Limit, OrderSide::Buy, 1, 1, 200);
    assert_eq!(engine.order_number, 0);
    engine.add_order(1, OrderType::Limit, OrderSide::Buy, 1, 1, 60);
    let bals = engine.users_balances.get(&1).unwrap();
    assert_eq!((bals[0].locked, bals[0].available), (60, 40));
    assert_eq!((bals[1].locked, bals[1].available), (0, 5000));
}

#[test]
fn api_place_order_places_and_matches() {
    let mut engine = two_users();
    place_order(
        &mut engine,
        PlaceOrderReq {
            user_id: 2,
            stock_id: 1,
            order_side: OrderSide::Sell,
            order_type: OrderType::Limit,
            quantity: 1,
            price: 999,
            amount: 300,
        },
    );
    assert_eq!(book(&engine, 1).asks[0].price, 300);
    place_order(
        &mut engine,
        PlaceOrderReq {
            user_id: 1,
            stock_id: 1,
            order_side: OrderSide::Buy,
            order_type: OrderType::Limit,
            quantity: 1,
            price: 0,
            amount: 300,
        },
    );
    assert_eq!(book(&engine, 1).asks.len(), 0);
    assert_eq!(book(&engine, 1).bids.len(), 0);
    assert_eq!(find(&engine, 2, "USD"), Some((0, 10300)));
}

#[test]
fn api_cancel_order_cancels() {
    let mut engine = two_users();
    engine.add_order(1, OrderType::Limit, OrderSide::Buy, 1, 1, 300);
    cancel_order(&mut engine, CancelOrderReq { stock_id: 1, order_id: 0, order_side: OrderSide::Buy });
    assert_eq!(book(&engine, 1).bids.len(), 0);
    assert_eq!(find(&engine, 1, "USD"), Some((0, 10000)));
}

#[test]
fn api_get_orderbook_finds_books() {
    let mut engine = two_users();
    engine.add_order(1, OrderType::Limit, OrderSide::Buy, 1, 1, 300);
    let b = get_orderbook(&engine, 1).unwrap();
    assert_eq!(b.bids.len(), 1);
    assert!(get_orderbook(&engine, 2).is_none());
}
