//! The matching engine: markets, order books and balances, and the
//! operations on them.
use std::collections::HashMap;
use vstd::prelude::*;
use crate::model::{
    adjust_balance, cancel_release, after_add_ask, after_add_bid, after_add_order, after_cancel_order,
    after_match_order, after_match_step, after_remove_order, after_settle_trade, ask_slot,
    balance_of, bid_slot, book_size, books_sorted, clamp, credit_or_open, crossed, currency_index,
    fill_order, balances_nonneg, ids_below, ids_unique, tags_match, is_ask_slot, is_bid_slot, is_first_currency, is_first_order,
    lemma_currency_index, lemma_first_is_found, lemma_match_keeps_shape, lemma_match_step_shrinks, lemma_order_index,
    lock_amount, min_u32, order_accepted, order_currency, order_index, order_of, sat_add_u32,
    side_orders, with_last_price, without_order, EngineView,
};
use crate::laws::{
    has_id, law_cancel_order_result, law_remove_order_result, law_settle_trade_result,
    law_add_order_keeps_books_sorted, law_cancel_order_keeps_books_sorted,
    law_match_order_keeps_books_sorted, law_remove_order_keeps_books_sorted,
    law_settle_trade_keeps_books_sorted, law_add_order_keeps_ids_below,
    law_cancel_order_keeps_ids_below, law_match_order_keeps_ids_below,
    law_remove_order_keeps_ids_below, law_settle_trade_keeps_ids_below,
    law_add_order_keeps_ids_unique, law_cancel_order_keeps_ids_unique,
    law_match_order_keeps_ids_unique, law_remove_order_keeps_ids_unique,
    law_settle_trade_keeps_ids_unique, law_add_order_keeps_tags, law_cancel_order_keeps_tags,
    law_match_order_keeps_tags, law_add_order_keeps_balances_nonneg, law_remove_order_keeps_tags, law_settle_trade_keeps_tags,
};
use crate::schemas::{Balance, BalanceView, Order, OrderBook, OrderSide, OrderType, StockCurrency};

verus! {

broadcast use vstd::std_specs::hash::group_hash_axioms;

/// The state of the exchange: the id the next order gets, the markets by
/// id, the order book of each market by id, and the balances of each user
/// by id.
pub struct Engine {
    pub order_number: u32,
    pub stocks: HashMap<u32, StockCurrency>,
    pub order_books: HashMap<u32, OrderBook>,
    pub users_balances: HashMap<u32, Vec<Balance>>,
}

/// The values of a list of balances.
pub open spec fn balances_view(bals: Seq<Balance>) -> Seq<BalanceView> {
    bals.map_values(|b: Balance| b@)
}

impl View for Engine {
    type V = EngineView;

    open spec fn view(&self) -> EngineView {
        EngineView {
            order_number: self.order_number,
            stocks: self.stocks@.map_values(|s: StockCurrency| s@),
            books: self.order_books@.map_values(|b: OrderBook| b@),
            balances: self.users_balances@.map_values(|v: Vec<Balance>| balances_view(v@)),
        }
    }
}

/// `a + d` brought into the range of `i128`.
fn clamp_add(a: i128, d: i128) -> (r: i128)
    ensures
        r == clamp(a + d),
{
    if d >= 0 {
        if a > i128::MAX - d {
            i128::MAX
        } else {
            a + d
        }
    } else {
        if a < i128::MIN - d {
            i128::MIN
        } else {
            a + d
        }
    }
}

/// `a + b`, stopping at `u32::MAX`.
fn sat_add(a: u32, b: u32) -> (r: u32)
    ensures
        r == sat_add_u32(a, b),
{
    a.saturating_add(b)
}

/// The first position of a balance in `currency`.
fn find_currency(bals: &Vec<Balance>, currency: &String) -> (r: Option<usize>)
    ensures
        match r {
            Some(i) => currency_index(balances_view(bals@), currency@) == Some(i as int),
            None => currency_index(balances_view(bals@), currency@) is None,
        },
{
    let ghost bv = balances_view(bals@);
    let mut i: usize = 0;
    while i < bals.len()
        invariant
            bv == balances_view(bals@),
            i <= bals.len(),
            forall|j: int| 0 <= j < i ==> #[trigger] bv[j].currency != currency@,
        decreases bals.len() - i,
    {
        if bals[i].currency == *currency {
            proof {
                lemma_currency_index(bv, currency@, i as int);
            }
            return Some(i);
        }
        i = i + 1;
    }
    assert(!exists|k: int| is_first_currency(bv, currency@, k)) by {
        if exists|k: int| is_first_currency(bv, currency@, k) {
            let k = choose|k: int| is_first_currency(bv, currency@, k);
            assert(bv[k].currency != currency@);
        }
    }
    None
}

/// The first position of an order with id `order_id`.
fn find_order(orders: &Vec<Order>, order_id: u32) -> (r: Option<usize>)
    ensures
        match r {
            Some(i) => order_index(orders@, order_id) == Some(i as int),
            None => order_index(orders@, order_id) is None,
        },
{
    let mut i: usize = 0;
    while i < orders.len()
        invariant
            i <= orders.len(),
            forall|j: int| 0 <= j < i ==> #[trigger] orders@[j].order_id != order_id,
        decreases orders.len() - i,
    {
        if orders[i].order_id == order_id {
            proof {
                lemma_order_index(orders@, order_id, i as int);
            }
            return Some(i);
        }
        i = i + 1;
    }
    assert(!exists|k: int| is_first_order(orders@, order_id, k)) by {
        if exists|k: int| is_first_order(orders@, order_id, k) {
            let k = choose|k: int| is_first_order(orders@, order_id, k);
            assert(orders@[k].order_id != order_id);
        }
    }
    None
}

proof fn lemma_bid_slot(bids: Seq<Order>, price: u32, k: int)
    requires
        is_bid_slot(bids, price, k),
    ensures
        bid_slot(bids, price) == k,
{
    let c = choose|c: int| is_bid_slot(bids, price, c);
    assert(is_bid_slot(bids, price, c));
    if c < k {
        assert(bids[c].price > price);
    } else if c > k {
        assert(bids[k].price > price);
    }
}

proof fn lemma_ask_slot(asks: Seq<Order>, price: u32, k: int)
    requires
        is_ask_slot(asks, price, k),
    ensures
        ask_slot(asks, price) == k,
{
    let c = choose|c: int| is_ask_slot(asks, price, c);
    assert(is_ask_slot(asks, price, c));
    if c < k {
        assert(asks[c].price < price);
    } else if c > k {
        assert(asks[k].price < price);
    }
}

/// The position where a bid at `price` goes: the first bid whose price is
/// not higher.
fn find_bid_slot(bids: &Vec<Order>, price: u32) -> (k: usize)
    ensures
        k == bid_slot(bids@, price),
        k <= bids.len(),
{
    let mut i: usize = 0;
    while i < bids.len() && bids[i].price > price
        invariant
            i <= bids.len(),
            forall|j: int| 0 <= j < i ==> #[trigger] bids@[j].price > price,
        decreases bids.len() - i,
    {
        i = i + 1;
    }
    proof {
        lemma_bid_slot(bids@, price, i as int);
    }
    i
}

/// The position where an ask at `price` goes: the first ask whose price is
/// not lower.
fn find_ask_slot(asks: &Vec<Order>, price: u32) -> (k: usize)
    ensures
        k == ask_slot(asks@, price),
        k <= asks.len(),
{
    let mut i: usize = 0;
    while i < asks.len() && asks[i].price < price
        invariant
            i <= asks.len(),
            forall|j: int| 0 <= j < i ==> #[trigger] asks@[j].price < price,
        decreases asks.len() - i,
    {
        i = i + 1;
    }
    proof {
        lemma_ask_slot(asks@, price, i as int);
    }
    i
}

/// The orders without those of id `order_id`, in their order.
fn retain_others(orders: &Vec<Order>, order_id: u32) -> (r: Vec<Order>)
    ensures
        r@ == without_order(orders@, order_id),
{
    let mut r: Vec<Order> = Vec::new();
    let mut i: usize = 0;
    while i < orders.len()
        invariant
            i <= orders.len(),
            r@ == without_order(orders@.take(i as int), order_id),
        decreases orders.len() - i,
    {
        proof {
            reveal(Seq::filter);
            assert(orders@.take(i + 1).drop_last() =~= orders@.take(i as int));
        }
        if orders[i].order_id != order_id {
            r.push(orders[i]);
        }
        i = i + 1;
    }
    assert(orders@.take(orders.len() as int) =~= orders@);
    r
}

/// The cost of `quantity` at `price`.
fn cost_of(price: u32, quantity: u32) -> (c: i128)
    ensures
        c == price * quantity,
        0 <= c <= u32::MAX * u32::MAX,
{
    proof {
        vstd::arithmetic::mul::lemma_mul_upper_bound(
            price as int,
            u32::MAX as int,
            quantity as int,
            u32::MAX as int,
        );
        vstd::arithmetic::mul::lemma_mul_nonnegative(price as int, quantity as int);
    }
    (price as i128) * (quantity as i128)
}

/// What cancelling an order on `side` releases: the unfilled quantity
/// times the price for a bid, the unfilled quantity for an ask.
fn release_of(order: Order, side: OrderSide) -> (r: i128)
    ensures
        r == cancel_release(order, side),
        -(u32::MAX * u32::MAX) <= r <= u32::MAX * u32::MAX,
{
    let remaining: i128 = order.quantity as i128 - order.filled_quantity as i128;
    match side {
        OrderSide::Buy => {
            let price = order.price;
            proof {
                let a = if remaining >= 0 { remaining as int } else { -remaining };
                vstd::arithmetic::mul::lemma_mul_upper_bound(a, u32::MAX as int, price as int, u32::MAX as int);
                vstd::arithmetic::mul::lemma_mul_nonnegative(a, price as int);
                if remaining < 0 {
                    vstd::arithmetic::mul::lemma_mul_unary_negation(a, price as int);
                }
            }
            remaining * (price as i128)
        },
        OrderSide::Sell => {
            proof {
                vstd::arithmetic::mul::lemma_mul_upper_bound(1, u32::MAX as int, u32::MAX as int, u32::MAX as int);
            }
            remaining
        },
    }
}

impl Engine {
    /// An engine with no markets, books or balances; the first order gets
    /// id 0.
    pub fn new() -> (engine: Engine)
        ensures
            engine@ == (EngineView {
                order_number: 0,
                stocks: Map::empty(),
                books: Map::empty(),
                balances: Map::empty(),
            }),
    {
        let engine = Engine {
            order_number: 0,
            stocks: HashMap::new(),
            order_books: HashMap::new(),
            users_balances: HashMap::new(),
        };
        assert(engine@.stocks =~= Map::empty());
        assert(engine@.books =~= Map::empty());
        assert(engine@.balances =~= Map::empty());
        engine
    }

    /// The balance of `user_id` in `currency` that the engine uses.
    fn get_balance(&self, currency: &String, user_id: u32) -> (r: Option<&Balance>)
        ensures
            match r {
                Some(b) => balance_of(self@, user_id, currency@) == Some(b@),
                None => balance_of(self@, user_id, currency@) is None,
            },
    {
        let balances = match self.users_balances.get(&user_id) {
            Some(v) => v,
            None => return None,
        };
        match find_currency(balances, currency) {
            Some(i) => Some(&balances[i]),
            None => None,
        }
    }

    /// Moves the balance of `user_id` in `currency`, if there is one, by
    /// `dlocked` and `davailable`.
    fn shift_balance(&mut self, currency: &String, user_id: u32, dlocked: i128, davailable: i128)
        ensures
            final(self)@ == adjust_balance(
                old(self)@,
                user_id,
                currency@,
                dlocked as int,
                davailable as int,
            ),
    {
        let ghost m = self@;
        match self.users_balances.remove(&user_id) {
            Some(mut bals) => {
                let ghost old_bals = bals@;
                match find_currency(&bals, currency) {
                    Some(i) => {
                        let nb = Balance {
                            currency: bals[i].currency.clone(),
                            locked: clamp_add(bals[i].locked, dlocked),
                            available: clamp_add(bals[i].available, davailable),
                        };
                        bals.set(i, nb);
                        assert(balances_view(bals@) =~= balances_view(old_bals).update(i as int, nb@));
                    },
                    None => {},
                }
                self.users_balances.insert(user_id, bals);
                assert(self@.balances =~= m.balances.insert(user_id, balances_view(bals@)));
                assert(self@ =~= adjust_balance(m, user_id, currency@, dlocked as int, davailable as int));
            },
            None => {
                assert(self@ =~= m);
            },
        }
    }

    /// Adds `amount` to the available balance of `user_id` in `currency`,
    /// opening that balance where the user has balances but none in it.
    fn credit_balance(&mut self, currency: &String, user_id: u32, amount: i128)
        ensures
            final(self)@ == credit_or_open(old(self)@, user_id, currency@, amount as int),
    {
        let ghost m = self@;
        if self.get_balance(currency, user_id).is_some() {
            self.shift_balance(currency, user_id, 0, amount);
        } else {
            match self.users_balances.remove(&user_id) {
                Some(mut bals) => {
                    let ghost old_bals = bals@;
                    let nb = Balance { currency: currency.clone(), locked: 0, available: amount };
                    bals.push(nb);
                    assert(balances_view(bals@) =~= balances_view(old_bals).push(nb@));
                    self.users_balances.insert(user_id, bals);
                    assert(self@.balances =~= m.balances.insert(user_id, balances_view(bals@)));
                    assert(self@ =~= credit_or_open(m, user_id, currency@, amount as int));
                },
                None => {
                    assert(self@ =~= m);
                },
            }
        }
    }

    /// Fills the first order `order_id` on `order_side` of `stock_id` by
    /// `quantity` more, and returns that order as it was.
    fn fill_order(&mut self, order_side: OrderSide, order_id: u32, stock_id: u32, quantity: u32) -> (o: Order)
        requires
            old(self)@.books.contains_key(stock_id),
            order_index(side_orders(old(self)@.books[stock_id], order_side), order_id) is Some,
        ensures
            final(self)@ == fill_order(old(self)@, stock_id, order_side, order_id, quantity),
            o == order_of(side_orders(old(self)@.books[stock_id], order_side), order_id),
    {
        let ghost m = self@;
        let mut book = self.order_books.remove(&stock_id).unwrap();
        let ghost old_book = book@;
        let o = match order_side {
            OrderSide::Buy => {
                let i = find_order(&book.bids, order_id).unwrap();
                let o = book.bids[i];
                book.bids.set(i, Order { filled_quantity: sat_add(o.filled_quantity, quantity), ..o });
                o
            },
            OrderSide::Sell => {
                let i = find_order(&book.asks, order_id).unwrap();
                let o = book.asks[i];
                book.asks.set(i, Order { filled_quantity: sat_add(o.filled_quantity, quantity), ..o });
                o
            },
        };
        self.order_books.insert(stock_id, book);
        assert(self@.books =~= m.books.insert(stock_id, book@));
        assert(self@ =~= fill_order(m, stock_id, order_side, order_id, quantity));
        o
    }

    /// Removes every order `order_id` from `order_side` of the book of
    /// `stock_id`.
    pub fn remove_order(&mut self, stock_id: u32, order_id: u32, order_side: OrderSide)
        requires
            old(self)@.books.contains_key(stock_id),
        ensures
            final(self)@ == after_remove_order(old(self)@, stock_id, order_id, order_side),
            !has_id(side_orders(final(self)@.books[stock_id], order_side), order_id),
            books_sorted(old(self)@) ==> books_sorted(final(self)@),
            ids_below(old(self)@) ==> ids_below(final(self)@),
            ids_unique(old(self)@) ==> ids_unique(final(self)@),
            tags_match(old(self)@) ==> tags_match(final(self)@),
    {
        let ghost m = self@;
        proof {
            law_remove_order_result(m, stock_id, order_id, order_side);
        }
        proof {
            if books_sorted(m) {
                law_remove_order_keeps_books_sorted(m, stock_id, order_id, order_side);
            }
            if ids_below(m) {
                law_remove_order_keeps_ids_below(m, stock_id, order_id, order_side);
            }
            if ids_unique(m) {
                law_remove_order_keeps_ids_unique(m, stock_id, order_id, order_side);
            }
            if tags_match(m) {
                law_remove_order_keeps_tags(m, stock_id, order_id, order_side);
            }
        }
        let mut book = self.order_books.remove(&stock_id).unwrap();
        match order_side {
            OrderSide::Buy => {
                book.bids = retain_others(&book.bids, order_id);
            },
            OrderSide::Sell => {
                book.asks = retain_others(&book.asks, order_id);
            },
        }
        self.order_books.insert(stock_id, book);
        assert(self@.books =~= m.books.insert(stock_id, book@));
        assert(self@ =~= after_remove_order(m, stock_id, order_id, order_side));
    }

    /// Puts `order` among the bids of `stock_id` at its price slot, where
    /// the market has a book.
    fn add_bid(&mut self, stock_id: u32, order: Order)
        ensures
            final(self)@ == after_add_bid(old(self)@, stock_id, order),
    {
        let ghost m = self@;
        match self.order_books.remove(&stock_id) {
            Some(mut book) => {
                let insert_position = find_bid_slot(&book.bids, order.price);
                book.bids.insert(insert_position, order);
                self.order_books.insert(stock_id, book);
                assert(self@.books =~= m.books.insert(stock_id, book@));
                assert(self@ =~= after_add_bid(m, stock_id, order));
            },
            None => {
                assert(self@ =~= m);
            },
        }
    }

    /// Puts `order` among the asks of `stock_id` at its price slot, where
    /// the market has a book.
    fn add_ask(&mut self, stock_id: u32, order: Order)
        ensures
            final(self)@ == after_add_ask(old(self)@, stock_id, order),
    {
        let ghost m = self@;
        match self.order_books.remove(&stock_id) {
            Some(mut book) => {
                let insert_position = find_ask_slot(&book.asks, order.price);
                book.asks.insert(insert_position, order);
                self.order_books.insert(stock_id, book);
                assert(self@.books =~= m.books.insert(stock_id, book@));
                assert(self@ =~= after_add_ask(m, stock_id, order));
            },
            None => {
                assert(self@ =~= m);
            },
        }
    }

    /// The first order `order_id` on `order_side` of `stock_id`.
    fn get_order(&self, order_side: OrderSide, order_id: u32, stock_id: u32) -> (o: Order)
        requires
            self@.books.contains_key(stock_id),
            order_index(side_orders(self@.books[stock_id], order_side), order_id) is Some,
        ensures
            o == order_of(side_orders(self@.books[stock_id], order_side), order_id),
    {
        let book = self.order_books.get(&stock_id).unwrap();
        let orders = match order_side {
            OrderSide::Buy => &book.bids,
            OrderSide::Sell => &book.asks,
        };
        let i = find_order(orders, order_id).unwrap();
        orders[i]
    }

    /// Records `price` as the last traded price of `stock_id`, where the
    /// market has a book.
    fn set_last_traded_price(&mut self, stock_id: u32, price: u32)
        ensures
            final(self)@ == with_last_price(old(self)@, stock_id, price),
    {
        let ghost m = self@;
        match self.order_books.remove(&stock_id) {
            Some(mut book) => {
                book.last_traded_price = Some(price);
                self.order_books.insert(stock_id, book);
                assert(self@.books =~= m.books.insert(stock_id, book@));
                assert(self@ =~= with_last_price(m, stock_id, price));
            },
            None => {
                assert(self@ =~= m);
            },
        }
    }

    /// Places an order of `user_id` on `order_side` of market `stock_id`
    /// for `quantity` at price `amount`. Where the user's balance in the
    /// currency the order locks (quote for a bid, base for an ask) has at
    /// least `quantity * amount` (bid) or `quantity` (ask) available, that
    /// amount moves from available to locked, the order rests in the book
    /// with the next id, and the next id is one more; otherwise nothing
    /// changes.
    pub fn add_order(
        &mut self,
        user_id: u32,
        order_type: OrderType,
        order_side: OrderSide,
        stock_id: u32,
        quantity: u32,
        amount: u32,
    )
        requires
            old(self)@.stocks.contains_key(stock_id),
            order_accepted(old(self)@, user_id, order_side, stock_id, quantity, amount)
                ==> old(self)@.order_number < u32::MAX,
        ensures
            final(self)@ == after_add_order(
                old(self)@,
                user_id,
                order_type,
                order_side,
                stock_id,
                quantity,
                amount,
            ),
            books_sorted(old(self)@) ==> books_sorted(final(self)@),
            ids_below(old(self)@) ==> ids_below(final(self)@),
            ids_unique(old(self)@) && ids_below(old(self)@) ==> ids_unique(final(self)@),
            tags_match(old(self)@) ==> tags_match(final(self)@),
            balances_nonneg(old(self)@) ==> balances_nonneg(final(self)@),
    {
        let ghost m = self@;
        proof {
            if books_sorted(m) {
                law_add_order_keeps_books_sorted(m, user_id, order_type, order_side, stock_id, quantity, amount);
            }
            if ids_below(m) {
                law_add_order_keeps_ids_below(m, user_id, order_type, order_side, stock_id, quantity, amount);
            }
            if ids_unique(m) && ids_below(m) {
                law_add_order_keeps_ids_unique(m, user_id, order_type, order_side, stock_id, quantity, amount);
            }
            if tags_match(m) {
                law_add_order_keeps_tags(m, user_id, order_type, order_side, stock_id, quantity, amount);
            }
            if balances_nonneg(m) {
                law_add_order_keeps_balances_nonneg(m, user_id, order_type, order_side, stock_id, quantity, amount);
            }
        }
        let (base_currency, quote_currency) = {
            let stock = self.stocks.get(&stock_id).unwrap();
            (stock.base_currency.clone(), stock.quote_currency.clone())
        };
        let currency = match order_side {
            OrderSide::Buy => &quote_currency,
            OrderSide::Sell => &base_currency,
        };
        assert(currency@ == order_currency(m, stock_id, order_side));
        let available = match self.get_balance(currency, user_id) {
            Some(balance) => balance.available,
            None => return,
        };
        let amount_to_lock: i128 = match order_side {
            OrderSide::Buy => cost_of(amount, quantity),
            OrderSide::Sell => quantity as i128,
        };
        assert(amount_to_lock == lock_amount(order_side, quantity, amount)) by {
            vstd::arithmetic::mul::lemma_mul_is_commutative(amount as int, quantity as int);
        }
        if available >= amount_to_lock {
            self.shift_balance(currency, user_id, amount_to_lock, -amount_to_lock);
            let new_order: Order = Order {
                order_id: self.order_number,
                user_id: user_id,
                quantity: quantity,
                price: amount,
                stock: stock_id,
                filled_quantity: 0,
                order_type: order_type,
                order_side: order_side,
            };
            if let OrderSide::Buy = order_side {
                self.add_bid(stock_id, new_order);
            } else {
                self.add_ask(stock_id, new_order);
            }
            self.order_number = self.order_number + 1;
            assert(self@ =~= after_add_order(m, user_id, order_type, order_side, stock_id, quantity, amount));
        }
    }

    /// Settles a trade of `quantity` at `price` between bid `bid_order_id`
    /// and ask `ask_order_id` of `stock_id`: see [`after_settle_trade`].
    pub fn settle_trade(
        &mut self,
        price: u32,
        quantity: u32,
        stock_id: u32,
        bid_order_id: u32,
        ask_order_id: u32,
    )
        requires
            old(self)@.stocks.contains_key(stock_id),
            old(self)@.books.contains_key(stock_id),
            order_index(old(self)@.books[stock_id].bids, bid_order_id) is Some,
            order_index(old(self)@.books[stock_id].asks, ask_order_id) is Some,
        ensures
            final(self)@ == after_settle_trade(
                old(self)@,
                price,
                quantity,
                stock_id,
                bid_order_id,
                ask_order_id,
            ),
            final(self)@.books[stock_id].last_traded_price == Some(price),
            books_sorted(old(self)@) ==> books_sorted(final(self)@),
            ids_below(old(self)@) ==> ids_below(final(self)@),
            ids_unique(old(self)@) ==> ids_unique(final(self)@),
            tags_match(old(self)@) ==> tags_match(final(self)@),
    {
        proof {
            law_settle_trade_result(self@, price, quantity, stock_id, bid_order_id, ask_order_id);
        }
        proof {
            if books_sorted(self@) {
                law_settle_trade_keeps_books_sorted(self@, price, quantity, stock_id, bid_order_id, ask_order_id);
            }
            if ids_below(self@) {
                law_settle_trade_keeps_ids_below(self@, price, quantity, stock_id, bid_order_id, ask_order_id);
            }
            if ids_unique(self@) {
                law_settle_trade_keeps_ids_unique(self@, price, quantity, stock_id, bid_order_id, ask_order_id);
            }
            if tags_match(self@) {
                law_settle_trade_keeps_tags(self@, price, quantity, stock_id, bid_order_id, ask_order_id);
            }
        }
        let (base_currency, quote_currency) = {
            let stock = self.stocks.get(&stock_id).unwrap();
            (stock.base_currency.clone(), stock.quote_currency.clone())
        };
        let bid = self.fill_order(OrderSide::Buy, bid_order_id, stock_id, quantity);
        let ask = self.fill_order(OrderSide::Sell, ask_order_id, stock_id, quantity);
        let cost = cost_of(price, quantity);
        // The buyer pays from locked quote funds and receives the base.
        self.shift_balance(&quote_currency, bid.user_id, -cost, 0);
        self.credit_balance(&base_currency, bid.user_id, quantity as i128);
        // The seller gives locked base funds and receives the quote.
        self.shift_balance(&base_currency, ask.user_id, -(quantity as i128), 0);
        self.credit_balance(&quote_currency, ask.user_id, cost);
        self.set_last_traded_price(stock_id, price);
        // Fully filled orders leave the book.
        if sat_add(bid.filled_quantity, quantity) >= bid.quantity {
            self.remove_order(stock_id, bid_order_id, OrderSide::Buy);
        }
        if sat_add(ask.filled_quantity, quantity) >= ask.quantity {
            self.remove_order(stock_id, ask_order_id, OrderSide::Sell);
        }
    }

    /// Cancels order `order_id` on `order_side` of `stock_id`: what it still
    /// has locked moves from locked to available (the unfilled quantity
    /// times the price, in quote, for a bid; the unfilled quantity, in
    /// base, for an ask), and it leaves the book.
    pub fn cancel_order(&mut self, stock_id: u32, order_id: u32, order_side: OrderSide)
        requires
            old(self)@.stocks.contains_key(stock_id),
            old(self)@.books.contains_key(stock_id),
            order_index(side_orders(old(self)@.books[stock_id], order_side), order_id) is Some,
        ensures
            final(self)@ == after_cancel_order(old(self)@, stock_id, order_id, order_side),
            !has_id(side_orders(final(self)@.books[stock_id], order_side), order_id),
            books_sorted(old(self)@) ==> books_sorted(final(self)@),
            ids_below(old(self)@) ==> ids_below(final(self)@),
            ids_unique(old(self)@) ==> ids_unique(final(self)@),
            tags_match(old(self)@) ==> tags_match(final(self)@),
    {
        proof {
            law_cancel_order_result(self@, stock_id, order_id, order_side);
        }
        proof {
            if books_sorted(self@) {
                law_cancel_order_keeps_books_sorted(self@, stock_id, order_id, order_side);
            }
            if ids_below(self@) {
                law_cancel_order_keeps_ids_below(self@, stock_id, order_id, order_side);
            }
            if ids_unique(self@) {
                law_cancel_order_keeps_ids_unique(self@, stock_id, order_id, order_side);
            }
            if tags_match(self@) {
                law_cancel_order_keeps_tags(self@, stock_id, order_id, order_side);
            }
        }
        let (base_currency, quote_currency) = {
            let stock = self.stocks.get(&stock_id).unwrap();
            (stock.base_currency.clone(), stock.quote_currency.clone())
        };
        let order = self.get_order(order_side, order_id, stock_id);
        let release = release_of(order, order_side);
        let currency_to_release = match order_side {
            OrderSide::Buy => &quote_currency,
            OrderSide::Sell => &base_currency,
        };
        self.shift_balance(currency_to_release, order.user_id, -release, release);
        self.remove_order(stock_id, order_id, order_side);
    }

    /// Matches the book of `stock_id`: while the best bid is at or above the
    /// best ask, the two trade the smaller of their quantities at the ask's
    /// price. Afterwards the book is no longer crossed.
    pub fn match_order(&mut self, stock_id: u32)
        requires
            old(self)@.books.contains_key(stock_id),
            old(self)@.stocks.contains_key(stock_id) || !crossed(old(self)@.books[stock_id]),
        ensures
            final(self)@ == after_match_order(old(self)@, stock_id),
            !crossed(final(self)@.books[stock_id]),
            final(self)@.stocks == old(self)@.stocks,
            final(self)@.books.dom() == old(self)@.books.dom(),
            final(self)@.order_number == old(self)@.order_number,
            books_sorted(old(self)@) ==> books_sorted(final(self)@),
            ids_below(old(self)@) ==> ids_below(final(self)@),
            ids_unique(old(self)@) ==> ids_unique(final(self)@),
            tags_match(old(self)@) ==> tags_match(final(self)@),
    {
        let ghost m = self@;
        proof {
            lemma_match_keeps_shape(m, stock_id);
            if books_sorted(m) {
                law_match_order_keeps_books_sorted(m, stock_id);
            }
            if ids_below(m) {
                law_match_order_keeps_ids_below(m, stock_id);
            }
            if ids_unique(m) {
                law_match_order_keeps_ids_unique(m, stock_id);
            }
            if tags_match(m) {
                law_match_order_keeps_tags(m, stock_id);
            }
        }
        loop
            invariant
                self@.books.contains_key(stock_id),
                self@.stocks.contains_key(stock_id) || !crossed(self@.books[stock_id]),
                after_match_order(self@, stock_id) == after_match_order(m, stock_id),
            ensures
                self@ == after_match_order(m, stock_id),
                !crossed(self@.books[stock_id]),
            decreases book_size(self@, stock_id),
        {
            let orderbook = self.order_books.get(&stock_id).unwrap();
            if !(orderbook.bids.len() > 0 && orderbook.asks.len() > 0
                && orderbook.bids[0].price >= orderbook.asks[0].price) {
                break;
            }
            // A match exists: take what the trade needs from the best orders.
            let bid = orderbook.bids[0];
            let ask = orderbook.asks[0];
            let ghost before = self@;
            proof {
                lemma_first_is_found(before.books[stock_id].bids);
                lemma_first_is_found(before.books[stock_id].asks);
                lemma_match_step_shrinks(before, stock_id);
            }
            // The quantity traded is the smaller of the two orders.
            let quantity = if bid.quantity <= ask.quantity {
                bid.quantity
            } else {
                ask.quantity
            };
            assert(quantity == min_u32(bid.quantity, ask.quantity));
            self.settle_trade(ask.price, quantity, stock_id, bid.order_id, ask.order_id);
            assert(self@ == after_match_step(before, stock_id));
        }
    }
}

} // verus!
