//! What the HTTP routes of the exchange compute: the bodies they accept and
//! what each does to the engine.
use vstd::prelude::*;
use crate::engine::Engine;
use crate::model::{after_add_order, after_cancel_order, after_match_order, order_accepted, order_index, side_orders};
use crate::schemas::{OrderBook, OrderSide, OrderType};

verus! {

broadcast use vstd::std_specs::hash::group_hash_axioms;

/// The body of a request to place an order. `amount` is the price the
/// order is placed at.
pub struct PlaceOrderReq {
    pub user_id: u32,
    pub stock_id: u32,
    pub order_side: OrderSide,
    pub order_type: OrderType,
    pub quantity: u32,
    pub price: u32,
    pub amount: u32,
}

/// The body of a request to cancel an order.
pub struct CancelOrderReq {
    pub stock_id: u32,
    pub order_id: u32,
    pub order_side: OrderSide,
}

/// The order book of market `stock_id`, if it has one.
pub fn get_orderbook(engine: &Engine, stock_id: u32) -> (r: Option<&OrderBook>)
    ensures
        match r {
            Some(book) => engine@.books.contains_key(stock_id) && book@ == engine@.books[stock_id],
            None => !engine@.books.contains_key(stock_id),
        },
{
    engine.order_books.get(&stock_id)
}

/// Places the order of `body` at price `body.amount`, then matches its
/// market.
pub fn place_order(engine: &mut Engine, body: PlaceOrderReq)
    requires
        old(engine)@.stocks.contains_key(body.stock_id),
        old(engine)@.books.contains_key(body.stock_id),
        order_accepted(
            old(engine)@,
            body.user_id,
            body.order_side,
            body.stock_id,
            body.quantity,
            body.amount,
        ) ==> old(engine)@.order_number < u32::MAX,
    ensures
        final(engine)@ == after_match_order(
            after_add_order(
                old(engine)@,
                body.user_id,
                body.order_type,
                body.order_side,
                body.stock_id,
                body.quantity,
                body.amount,
            ),
            body.stock_id,
        ),
{
    engine.add_order(
        body.user_id,
        body.order_type,
        body.order_side,
        body.stock_id,
        body.quantity,
        body.amount,
    );
    engine.match_order(body.stock_id);
}

/// Cancels the order of `body`.
pub fn cancel_order(engine: &mut Engine, body: CancelOrderReq)
    requires
        old(engine)@.stocks.contains_key(body.stock_id),
        old(engine)@.books.contains_key(body.stock_id),
        order_index(side_orders(old(engine)@.books[body.stock_id], body.order_side), body.order_id) is Some,
    ensures
        final(engine)@ == after_cancel_order(old(engine)@, body.stock_id, body.order_id, body.order_side),
{
    engine.cancel_order(body.stock_id, body.order_id, body.order_side);
}

} // verus!
