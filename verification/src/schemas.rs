use vstd::prelude::*;

verus! {

/// Which side of a market an order stands on.
#[derive(Clone, Copy, Debug, PartialEq, Eq, Structural)]
pub enum OrderSide {
    Buy,
    Sell,
}

/// How an order was placed. The engine stores it with the order.
#[derive(Clone, Copy, Debug, PartialEq, Eq, Structural)]
pub enum OrderType {
    Market,
    Limit,
}

/// What a user holds of one currency: funds that back resting orders, and
/// funds free to use.
#[derive(Debug)]
pub struct Balance {
    pub currency: String,
    pub locked: i128,
    pub available: i128,
}

/// The mathematical value of a [`Balance`].
pub struct BalanceView {
    pub currency: Seq<char>,
    pub locked: i128,
    pub available: i128,
}

impl View for Balance {
    type V = BalanceView;

    open spec fn view(&self) -> BalanceView {
        BalanceView { currency: self.currency@, locked: self.locked, available: self.available }
    }
}

/// The two currencies of a market: the asset traded, and the one it is
/// priced in.
#[derive(Debug)]
pub struct StockCurrency {
    pub base_currency: String,
    pub quote_currency: String,
}

/// The mathematical value of a [`StockCurrency`].
pub struct StockView {
    pub base: Seq<char>,
    pub quote: Seq<char>,
}

impl View for StockCurrency {
    type V = StockView;

    open spec fn view(&self) -> StockView {
        StockView { base: self.base_currency@, quote: self.quote_currency@ }
    }
}

/// One order resting in a book.
#[derive(Clone, Copy, Debug, PartialEq, Eq, Structural)]
pub struct Order {
    pub order_id: u32,
    pub user_id: u32,
    pub quantity: u32,
    pub price: u32,
    pub stock: u32,
    pub filled_quantity: u32,
    pub order_type: OrderType,
    pub order_side: OrderSide,
}

/// The book of one market: bids best (highest) price first, asks best
/// (lowest) price first, and the price of the last trade.
#[derive(Debug)]
pub struct OrderBook {
    pub bids: Vec<Order>,
    pub asks: Vec<Order>,
    pub last_traded_price: Option<u32>,
}

/// The mathematical value of an [`OrderBook`].
#[verifier::ext_equal]
pub struct BookView {
    pub bids: Seq<Order>,
    pub asks: Seq<Order>,
    pub last_traded_price: Option<u32>,
}

impl View for OrderBook {
    type V = BookView;

    open spec fn view(&self) -> BookView {
        BookView { bids: self.bids@, asks: self.asks@, last_traded_price: self.last_traded_price }
    }
}

} // verus!
