//! What holds of the engine across its operations: books stay in price
//! order, every order rests on its own side of its own market, order ids
//! are never reused and each order's is its own, placing never takes a
//! balance below 0, cancelling an order undoes placing it, and placing,
//! cancelling, trading and matching move funds without making or losing
//! any.
use vstd::prelude::*;
use crate::model::{
    adjust_balance, after_add_ask, after_add_bid, after_add_order, after_cancel_order,
    after_match_order, after_match_step, after_remove_order, after_settle_trade, ask_slot,
    asks_sorted, balance_of, bid_slot, bids_sorted, books_sorted, clamp, credit_or_open, crossed,
    cancel_release, currency_index, fill_both, fill_order, filled_by, lemma_settle_parts,
    pay_trade, balances_nonneg, orders_tagged, tags_match, ids_apart, ids_below, ids_distinct, ids_unique, is_ask_slot, is_bid_slot, is_first_currency,
    is_first_order, lemma_currency_index, lemma_match_step_shrinks, lemma_order_index, lock_amount,
    min_u32, new_order, sat_add_u32, order_accepted, order_currency, order_index, order_of, orders_below,
    side_orders, with_book, with_last_price, with_side_orders, without_order, EngineView,
};
use crate::schemas::{BalanceView, BookView, Order, OrderSide, OrderType};

verus! {

// ---------------------------------------------------------------------------
// Sequences of orders
// ---------------------------------------------------------------------------
/// Every order left after removing an id was an order before.
proof fn lemma_without_order_from(s: Seq<Order>, id: u32)
    ensures
        forall|i: int|
            0 <= i < without_order(s, id).len() ==> exists|j: int|
                0 <= j < s.len() && #[trigger] without_order(s, id)[i] == s[j],
    decreases s.len(),
{
    reveal(Seq::filter);
    if s.len() > 0 {
        lemma_without_order_from(s.drop_last(), id);
        let f = without_order(s.drop_last(), id);
        assert forall|i: int| 0 <= i < without_order(s, id).len() implies exists|j: int|
            0 <= j < s.len() && #[trigger] without_order(s, id)[i] == s[j] by {
            if i < f.len() {
                let j = choose|j: int| 0 <= j < s.drop_last().len() && f[i] == s.drop_last()[j];
                assert(without_order(s, id)[i] == s[j]);
            } else {
                assert(without_order(s, id)[i] == s[s.len() - 1]);
            }
        }
    }
}

/// Removing an id keeps bids in price order.
pub proof fn lemma_without_order_bids_sorted(s: Seq<Order>, id: u32)
    requires
        bids_sorted(s),
    ensures
        bids_sorted(without_order(s, id)),
    decreases s.len(),
{
    reveal(Seq::filter);
    if s.len() > 0 {
        let d = s.drop_last();
        lemma_without_order_bids_sorted(d, id);
        lemma_without_order_from(d, id);
        let f = without_order(d, id);
        assert forall|i: int, j: int|
            0 <= i <= j < without_order(s, id).len() implies without_order(s, id)[i].price
            >= without_order(s, id)[j].price by {
            if j >= f.len() && i < j {
                let k = choose|k: int| 0 <= k < d.len() && #[trigger] f[i] == d[k];
                assert(s[k].price >= s[s.len() - 1].price);
            }
        }
    }
}

/// Removing an id keeps asks in price order.
pub proof fn lemma_without_order_asks_sorted(s: Seq<Order>, id: u32)
    requires
        asks_sorted(s),
    ensures
        asks_sorted(without_order(s, id)),
    decreases s.len(),
{
    reveal(Seq::filter);
    if s.len() > 0 {
        let d = s.drop_last();
        lemma_without_order_asks_sorted(d, id);
        lemma_without_order_from(d, id);
        let f = without_order(d, id);
        assert forall|i: int, j: int|
            0 <= i <= j < without_order(s, id).len() implies without_order(s, id)[i].price
            <= without_order(s, id)[j].price by {
            if j >= f.len() && i < j {
                let k = choose|k: int| 0 <= k < d.len() && #[trigger] f[i] == d[k];
                assert(s[k].price <= s[s.len() - 1].price);
            }
        }
    }
}

/// Every bid sequence has a slot for every price.
proof fn lemma_bid_slot_exists(s: Seq<Order>, price: u32)
    ensures
        is_bid_slot(s, price, bid_slot(s, price)),
    decreases s.len(),
{
    if s.len() == 0 {
        assert(is_bid_slot(s, price, 0));
    } else {
        let d = s.drop_last();
        lemma_bid_slot_exists(d, price);
        let k = bid_slot(d, price);
        assert forall|j: int| 0 <= j < k implies #[trigger] s[j].price > price by {
            assert(d[j].price > price);
        }
        if k < d.len() {
            assert(s[k] == d[k]);
            assert(is_bid_slot(s, price, k));
        } else if s[s.len() - 1].price > price {
            assert(is_bid_slot(s, price, s.len() as int));
        } else {
            assert(is_bid_slot(s, price, k));
        }
    }
}

/// Every ask sequence has a slot for every price.
proof fn lemma_ask_slot_exists(s: Seq<Order>, price: u32)
    ensures
        is_ask_slot(s, price, ask_slot(s, price)),
    decreases s.len(),
{
    if s.len() == 0 {
        assert(is_ask_slot(s, price, 0));
    } else {
        let d = s.drop_last();
        lemma_ask_slot_exists(d, price);
        let k = ask_slot(d, price);
        assert forall|j: int| 0 <= j < k implies #[trigger] s[j].price < price by {
            assert(d[j].price < price);
        }
        if k < d.len() {
            assert(s[k] == d[k]);
            assert(is_ask_slot(s, price, k));
        } else if s[s.len() - 1].price < price {
            assert(is_ask_slot(s, price, s.len() as int));
        } else {
            assert(is_ask_slot(s, price, k));
        }
    }
}

/// A bid put at its slot keeps the bids in price order.
pub proof fn lemma_bid_insert_sorted(s: Seq<Order>, o: Order)
    requires
        bids_sorted(s),
    ensures
        bids_sorted(s.insert(bid_slot(s, o.price), o)),
{
    lemma_bid_slot_exists(s, o.price);
    let k = bid_slot(s, o.price);
    let r = s.insert(k, o);
    assert forall|i: int, j: int| 0 <= i <= j < r.len() implies r[i].price >= r[j].price by {
        if i < k && j > k {
            assert(s[i].price >= s[j - 1].price);
        } else if i == k && j > k {
            assert(s[k].price >= s[j - 1].price);
        } else if i > k {
            assert(s[i - 1].price >= s[j - 1].price);
        }
    }
}

/// An ask put at its slot keeps the asks in price order.
pub proof fn lemma_ask_insert_sorted(s: Seq<Order>, o: Order)
    requires
        asks_sorted(s),
    ensures
        asks_sorted(s.insert(ask_slot(s, o.price), o)),
{
    lemma_ask_slot_exists(s, o.price);
    let k = ask_slot(s, o.price);
    let r = s.insert(k, o);
    assert forall|i: int, j: int| 0 <= i <= j < r.len() implies r[i].price <= r[j].price by {
        if i < k && j > k {
            assert(s[i].price <= s[j - 1].price);
        } else if i == k && j > k {
            assert(s[k].price <= s[j - 1].price);
        } else if i > k {
            assert(s[i - 1].price <= s[j - 1].price);
        }
    }
}

// ---------------------------------------------------------------------------
// Price order of every book
// ---------------------------------------------------------------------------
/// Replacing one book by a sorted one keeps every book sorted.
proof fn lemma_with_book_sorted(m: EngineView, stock: u32, b: BookView)
    requires
        books_sorted(m),
        bids_sorted(b.bids),
        asks_sorted(b.asks),
    ensures
        books_sorted(with_book(m, stock, b)),
{
    let r = with_book(m, stock, b);
    assert forall|s: u32| #[trigger] r.books.contains_key(s) implies bids_sorted(r.books[s].bids)
        && asks_sorted(r.books[s].asks) by {
        if s != stock {
            assert(m.books.contains_key(s));
        }
    }
}

/// Steps on balances keep every book sorted.
proof fn lemma_balance_steps_sorted(m: EngineView, user: u32, cur: Seq<char>, a: int, b: int)
    requires
        books_sorted(m),
    ensures
        books_sorted(adjust_balance(m, user, cur, a, b)),
        books_sorted(credit_or_open(m, user, cur, a)),
{
}

/// Filling an order keeps every book sorted.
proof fn lemma_fill_sorted(m: EngineView, stock: u32, side: OrderSide, id: u32, quantity: u32)
    requires
        books_sorted(m),
        m.books.contains_key(stock),
    ensures
        books_sorted(fill_order(m, stock, side, id, quantity)),
{
    let b = m.books[stock];
    let os = side_orders(b, side);
    match order_index(os, id) {
        Some(i) => {
            let o = os[i];
            let os2 = os.update(i, Order { filled_quantity: crate::model::sat_add_u32(o.filled_quantity, quantity), ..o });
            let b2 = with_side_orders(b, side, os2);
            assert(bids_sorted(b2.bids) && asks_sorted(b2.asks));
            lemma_with_book_sorted(m, stock, b2);
        },
        None => {},
    }
}

/// Removing an order keeps every book sorted.
pub proof fn law_remove_order_keeps_books_sorted(m: EngineView, stock: u32, id: u32, side: OrderSide)
    requires
        books_sorted(m),
        m.books.contains_key(stock),
    ensures
        books_sorted(after_remove_order(m, stock, id, side)),
{
    let b = m.books[stock];
    lemma_without_order_bids_sorted(b.bids, id);
    lemma_without_order_asks_sorted(b.asks, id);
    lemma_with_book_sorted(m, stock, with_side_orders(b, side, without_order(side_orders(b, side), id)));
}

/// Placing an order keeps every book sorted: bids highest price first,
/// asks lowest price first.
pub proof fn law_add_order_keeps_books_sorted(
    m: EngineView,
    user: u32,
    order_type: OrderType,
    side: OrderSide,
    stock: u32,
    quantity: u32,
    price: u32,
)
    requires
        books_sorted(m),
    ensures
        books_sorted(after_add_order(m, user, order_type, side, stock, quantity, price)),
{
    let amount = lock_amount(side, quantity, price);
    let m1 = adjust_balance(m, user, order_currency(m, stock, side), amount, -amount);
    lemma_balance_steps_sorted(m, user, order_currency(m, stock, side), amount, -amount);
    let o = new_order(m, user, order_type, side, stock, quantity, price);
    if m1.books.contains_key(stock) {
        let b = m1.books[stock];
        lemma_bid_insert_sorted(b.bids, o);
        lemma_ask_insert_sorted(b.asks, o);
        lemma_with_book_sorted(
            m1,
            stock,
            BookView { bids: b.bids.insert(bid_slot(b.bids, o.price), o), asks: b.asks, last_traded_price: b.last_traded_price },
        );
        lemma_with_book_sorted(
            m1,
            stock,
            BookView { bids: b.bids, asks: b.asks.insert(ask_slot(b.asks, o.price), o), last_traded_price: b.last_traded_price },
        );
    }
    let m2 = match side {
        OrderSide::Buy => after_add_bid(m1, stock, o),
        OrderSide::Sell => after_add_ask(m1, stock, o),
    };
    assert(books_sorted(m2));
}

/// Settling a trade keeps every book sorted.
pub proof fn law_settle_trade_keeps_books_sorted(
    m: EngineView,
    price: u32,
    quantity: u32,
    stock: u32,
    bid_id: u32,
    ask_id: u32,
)
    requires
        books_sorted(m),
        m.books.contains_key(stock),
    ensures
        books_sorted(after_settle_trade(m, price, quantity, stock, bid_id, ask_id)),
{
    lemma_settle_parts(m, price, quantity, stock, bid_id, ask_id);
    let bid = order_of(m.books[stock].bids, bid_id);
    let ask = order_of(m.books[stock].asks, ask_id);
    let m1 = fill_order(m, stock, OrderSide::Buy, bid_id, quantity);
    lemma_fill_sorted(m, stock, OrderSide::Buy, bid_id, quantity);
    crate::model::lemma_fill_shape(m, stock, OrderSide::Buy, bid_id, quantity);
    lemma_fill_sorted(m1, stock, OrderSide::Sell, ask_id, quantity);
    let f = fill_both(m, stock, bid_id, ask_id, quantity);
    let p = pay_trade(f, bid.user_id, ask.user_id, m.stocks[stock].base, m.stocks[stock].quote, price * quantity, quantity as int);
    assert(books_sorted(p));
    let b = p.books[stock];
    lemma_with_book_sorted(p, stock, BookView { bids: b.bids, asks: b.asks, last_traded_price: Some(price) });
    let l = with_last_price(p, stock, price);
    let m8 = if filled_by(bid, quantity) {
        law_remove_order_keeps_books_sorted(l, stock, bid_id, OrderSide::Buy);
        after_remove_order(l, stock, bid_id, OrderSide::Buy)
    } else {
        l
    };
    assert(m8.books.contains_key(stock));
    if filled_by(ask, quantity) {
        law_remove_order_keeps_books_sorted(m8, stock, ask_id, OrderSide::Sell);
    }
}

/// Cancelling an order keeps every book sorted.
pub proof fn law_cancel_order_keeps_books_sorted(m: EngineView, stock: u32, id: u32, side: OrderSide)
    requires
        books_sorted(m),
        m.books.contains_key(stock),
    ensures
        books_sorted(after_cancel_order(m, stock, id, side)),
{
    let o = order_of(side_orders(m.books[stock], side), id);
    let release = cancel_release(o, side);
    let cur = order_currency(m, stock, side);
    lemma_balance_steps_sorted(m, o.user_id, cur, -release, release);
    crate::model::lemma_balance_steps_keep_books(m, o.user_id, cur, -release, release);
    law_remove_order_keeps_books_sorted(adjust_balance(m, o.user_id, cur, -release, release), stock, id, side);
}

/// Matching keeps every book sorted.
pub proof fn law_match_order_keeps_books_sorted(m: EngineView, stock: u32)
    requires
        books_sorted(m),
    ensures
        books_sorted(after_match_order(m, stock)),
    decreases crate::model::book_size(m, stock),
{
    if m.books.contains_key(stock) && m.stocks.contains_key(stock) && crossed(m.books[stock]) {
        let b = m.books[stock];
        lemma_match_step_shrinks(m, stock);
        law_settle_trade_keeps_books_sorted(
            m,
            b.asks[0].price,
            min_u32(b.bids[0].quantity, b.asks[0].quantity),
            stock,
            b.bids[0].order_id,
            b.asks[0].order_id,
        );
        law_match_order_keeps_books_sorted(after_match_step(m, stock), stock);
    }
}

// ---------------------------------------------------------------------------
// Fresh order ids
// ---------------------------------------------------------------------------
/// Removing an id keeps every id below a bound.
proof fn lemma_without_order_below(s: Seq<Order>, id: u32, n: u32)
    requires
        orders_below(s, n),
    ensures
        orders_below(without_order(s, id), n),
{
    lemma_without_order_from(s, id);
    assert forall|i: int| 0 <= i < without_order(s, id).len() implies #[trigger] without_order(
        s,
        id,
    )[i].order_id < n by {
        let j = choose|j: int| 0 <= j < s.len() && without_order(s, id)[i] == s[j];
    }
}

/// Replacing one book by one whose ids are below the next id keeps every
/// id below it.
proof fn lemma_with_book_ids(m: EngineView, stock: u32, b: BookView)
    requires
        ids_below(m),
        orders_below(b.bids, m.order_number),
        orders_below(b.asks, m.order_number),
    ensures
        ids_below(with_book(m, stock, b)),
{
    let r = with_book(m, stock, b);
    assert forall|s: u32| #[trigger] r.books.contains_key(s) implies orders_below(
        r.books[s].bids,
        r.order_number,
    ) && orders_below(r.books[s].asks, r.order_number) by {
        if s != stock {
            assert(m.books.contains_key(s));
        }
    }
}

/// Removing an order keeps every id below the next id.
pub proof fn law_remove_order_keeps_ids_below(m: EngineView, stock: u32, id: u32, side: OrderSide)
    requires
        ids_below(m),
        m.books.contains_key(stock),
    ensures
        ids_below(after_remove_order(m, stock, id, side)),
{
    let b = m.books[stock];
    lemma_without_order_below(b.bids, id, m.order_number);
    lemma_without_order_below(b.asks, id, m.order_number);
    lemma_with_book_ids(m, stock, with_side_orders(b, side, without_order(side_orders(b, side), id)));
}

/// Filling an order keeps every id below the next id.
proof fn lemma_fill_ids(m: EngineView, stock: u32, side: OrderSide, id: u32, quantity: u32)
    requires
        ids_below(m),
        m.books.contains_key(stock),
    ensures
        ids_below(fill_order(m, stock, side, id, quantity)),
{
    let b = m.books[stock];
    let os = side_orders(b, side);
    match order_index(os, id) {
        Some(i) => {
            let o = os[i];
            let os2 = os.update(i, Order { filled_quantity: crate::model::sat_add_u32(o.filled_quantity, quantity), ..o });
            let b2 = with_side_orders(b, side, os2);
            assert(orders_below(b2.bids, m.order_number) && orders_below(b2.asks, m.order_number));
            lemma_with_book_ids(m, stock, b2);
        },
        None => {},
    }
}

/// Placing an order gives it the next id and moves the next id past it,
/// so every resting order keeps an id below the next id: ids are never
/// reused.
pub proof fn law_add_order_keeps_ids_below(
    m: EngineView,
    user: u32,
    order_type: OrderType,
    side: OrderSide,
    stock: u32,
    quantity: u32,
    price: u32,
)
    requires
        ids_below(m),
        order_accepted(m, user, side, stock, quantity, price) ==> m.order_number < u32::MAX,
    ensures
        ids_below(after_add_order(m, user, order_type, side, stock, quantity, price)),
{
    if order_accepted(m, user, side, stock, quantity, price) {
        let amount = lock_amount(side, quantity, price);
        let cur = order_currency(m, stock, side);
        let m1 = adjust_balance(m, user, cur, amount, -amount);
        crate::model::lemma_balance_steps_keep_books(m, user, cur, amount, -amount);
        let o = new_order(m, user, order_type, side, stock, quantity, price);
        let n = (m.order_number + 1) as u32;
        let m2 = match side {
            OrderSide::Buy => after_add_bid(m1, stock, o),
            OrderSide::Sell => after_add_ask(m1, stock, o),
        };
        let r = after_add_order(m, user, order_type, side, stock, quantity, price);
        assert forall|s: u32| #[trigger] r.books.contains_key(s) implies orders_below(
            r.books[s].bids,
            n,
        ) && orders_below(r.books[s].asks, n) by {
            assert(m.books.contains_key(s));
            let b = m.books[s];
            assert(orders_below(b.bids, m.order_number));
            assert(orders_below(b.asks, m.order_number));
            if s == stock {
                lemma_bid_slot_exists(b.bids, price);
                lemma_ask_slot_exists(b.asks, price);
                let kb = bid_slot(b.bids, price);
                let ka = ask_slot(b.asks, price);
                assert forall|i: int| 0 <= i < r.books[s].bids.len() implies #[trigger] r.books[s].bids[i].order_id < n by {
                    if side == OrderSide::Buy && i > kb {
                        assert(r.books[s].bids[i] == b.bids[i - 1]);
                    }
                }
                assert forall|i: int| 0 <= i < r.books[s].asks.len() implies #[trigger] r.books[s].asks[i].order_id < n by {
                    if side == OrderSide::Sell && i > ka {
                        assert(r.books[s].asks[i] == b.asks[i - 1]);
                    }
                }
            }
        }
    }
}

/// Settling a trade keeps every id below the next id.
pub proof fn law_settle_trade_keeps_ids_below(
    m: EngineView,
    price: u32,
    quantity: u32,
    stock: u32,
    bid_id: u32,
    ask_id: u32,
)
    requires
        ids_below(m),
        m.books.contains_key(stock),
    ensures
        ids_below(after_settle_trade(m, price, quantity, stock, bid_id, ask_id)),
{
    lemma_settle_parts(m, price, quantity, stock, bid_id, ask_id);
    let bid = order_of(m.books[stock].bids, bid_id);
    let ask = order_of(m.books[stock].asks, ask_id);
    let m1 = fill_order(m, stock, OrderSide::Buy, bid_id, quantity);
    lemma_fill_ids(m, stock, OrderSide::Buy, bid_id, quantity);
    crate::model::lemma_fill_shape(m, stock, OrderSide::Buy, bid_id, quantity);
    lemma_fill_ids(m1, stock, OrderSide::Sell, ask_id, quantity);
    let f = fill_both(m, stock, bid_id, ask_id, quantity);
    let p = pay_trade(f, bid.user_id, ask.user_id, m.stocks[stock].base, m.stocks[stock].quote, price * quantity, quantity as int);
    assert(ids_below(p));
    let b = p.books[stock];
    lemma_with_book_ids(p, stock, BookView { bids: b.bids, asks: b.asks, last_traded_price: Some(price) });
    let l = with_last_price(p, stock, price);
    let m8 = if filled_by(bid, quantity) {
        law_remove_order_keeps_ids_below(l, stock, bid_id, OrderSide::Buy);
        after_remove_order(l, stock, bid_id, OrderSide::Buy)
    } else {
        l
    };
    assert(m8.books.contains_key(stock));
    if filled_by(ask, quantity) {
        law_remove_order_keeps_ids_below(m8, stock, ask_id, OrderSide::Sell);
    }
}

/// Cancelling an order keeps every id below the next id.
pub proof fn law_cancel_order_keeps_ids_below(m: EngineView, stock: u32, id: u32, side: OrderSide)
    requires
        ids_below(m),
        m.books.contains_key(stock),
    ensures
        ids_below(after_cancel_order(m, stock, id, side)),
{
    let o = order_of(side_orders(m.books[stock], side), id);
    let release = cancel_release(o, side);
    let cur = order_currency(m, stock, side);
    crate::model::lemma_balance_steps_keep_books(m, o.user_id, cur, -release, release);
    law_remove_order_keeps_ids_below(adjust_balance(m, o.user_id, cur, -release, release), stock, id, side);
}

/// Matching keeps every id below the next id.
pub proof fn law_match_order_keeps_ids_below(m: EngineView, stock: u32)
    requires
        ids_below(m),
    ensures
        ids_below(after_match_order(m, stock)),
    decreases crate::model::book_size(m, stock),
{
    if m.books.contains_key(stock) && m.stocks.contains_key(stock) && crossed(m.books[stock]) {
        let b = m.books[stock];
        lemma_match_step_shrinks(m, stock);
        law_settle_trade_keeps_ids_below(
            m,
            b.asks[0].price,
            min_u32(b.bids[0].quantity, b.asks[0].quantity),
            stock,
            b.bids[0].order_id,
            b.asks[0].order_id,
        );
        law_match_order_keeps_ids_below(after_match_step(m, stock), stock);
    }
}

// ---------------------------------------------------------------------------
// Cancelling undoes placing
// ---------------------------------------------------------------------------
/// Removing an id that no order has changes nothing.
proof fn lemma_without_absent(s: Seq<Order>, id: u32)
    requires
        forall|i: int| 0 <= i < s.len() ==> #[trigger] s[i].order_id != id,
    ensures
        without_order(s, id) == s,
    decreases s.len(),
{
    reveal(Seq::filter);
    if s.len() > 0 {
        lemma_without_absent(s.drop_last(), id);
        assert(s.drop_last().push(s.last()) =~= s);
    }
}

/// Removing the id of an order put into a side where no other order has
/// it gives back the side.
proof fn lemma_without_inserted(s: Seq<Order>, k: int, o: Order)
    requires
        0 <= k <= s.len(),
        forall|i: int| 0 <= i < s.len() ==> #[trigger] s[i].order_id != o.order_id,
    ensures
        without_order(s.insert(k, o), o.order_id) == s,
{
    let id = o.order_id;
    let a = s.take(k);
    let c = s.skip(k);
    assert(s.insert(k, o) =~= a + seq![o] + c);
    assert(s =~= a + c);
    Seq::filter_distributes_over_add(a + seq![o], c, |x: Order| x.order_id != id);
    Seq::filter_distributes_over_add(a, seq![o], |x: Order| x.order_id != id);
    lemma_without_absent(a, id);
    lemma_without_absent(c, id);
    reveal(Seq::filter);
    assert(seq![o].drop_last() =~= Seq::<Order>::empty());
    assert(seq![o].last() == o);
    assert(without_order(Seq::<Order>::empty(), id) == Seq::<Order>::empty());
    assert(without_order(seq![o], id) == without_order(seq![o].drop_last(), id));
    assert(without_order(seq![o], id) =~= Seq::<Order>::empty());
}

/// The first balance in a currency stays first when it is rewritten in the
/// same currency.
proof fn lemma_currency_index_update(bals: Seq<BalanceView>, cur: Seq<char>, i: int, b: BalanceView)
    requires
        currency_index(bals, cur) == Some(i),
        b.currency == cur,
    ensures
        currency_index(bals.update(i, b), cur) == Some(i),
{
    let j = choose|j: int| is_first_currency(bals, cur, j);
    assert(is_first_currency(bals, cur, j));
    assert(is_first_currency(bals.update(i, b), cur, i));
    lemma_currency_index(bals.update(i, b), cur, i);
}

/// Cancelling an order right after placing it gives back every balance
/// and every book as they were; only the next id has moved on. This holds
/// for bids and asks alike, where the order is accepted, its book exists,
/// no order on its side of that book already has the next id (as holds
/// wherever every id is below the next one, see [`ids_below`]), and the
/// locked balance does not run past the `i128` range.
pub proof fn law_cancel_undoes_add_order(
    m: EngineView,
    user: u32,
    order_type: OrderType,
    side: OrderSide,
    stock: u32,
    quantity: u32,
    price: u32,
)
    requires
        !has_id(side_orders(m.books[stock], side), m.order_number),
        m.stocks.contains_key(stock),
        m.books.contains_key(stock),
        order_accepted(m, user, side, stock, quantity, price),
        m.order_number < u32::MAX,
        balance_of(m, user, order_currency(m, stock, side))->0.locked + lock_amount(
            side,
            quantity,
            price,
        ) <= i128::MAX,
    ensures
        ({
            let placed = after_add_order(m, user, order_type, side, stock, quantity, price);
            let cancelled = after_cancel_order(placed, stock, m.order_number, side);
            &&& cancelled.balances == m.balances
            &&& cancelled.books == m.books
            &&& cancelled.stocks == m.stocks
            &&& cancelled.order_number == m.order_number + 1
        }),
{
    let cur = order_currency(m, stock, side);
    let amount = lock_amount(side, quantity, price);
    let bals = m.balances[user];
    let i = currency_index(bals, cur)->0;
    let b = bals[i];
    let b1 = BalanceView {
        currency: b.currency,
        locked: clamp(b.locked + amount),
        available: clamp(b.available - amount),
    };
    vstd::arithmetic::mul::lemma_mul_nonnegative(quantity as int, price as int);
    let m1 = adjust_balance(m, user, cur, amount, -amount);
    assert(m1.balances[user] == bals.update(i, b1));
    crate::model::lemma_balance_steps_keep_books(m, user, cur, amount, -amount);
    let o = new_order(m, user, order_type, side, stock, quantity, price);
    let id = m.order_number;
    let bk = m.books[stock];
    let os = side_orders(bk, side);
    lemma_bid_slot_exists(bk.bids, price);
    lemma_ask_slot_exists(bk.asks, price);
    let k = match side {
        OrderSide::Buy => bid_slot(bk.bids, price),
        OrderSide::Sell => ask_slot(bk.asks, price),
    };
    let placed = after_add_order(m, user, order_type, side, stock, quantity, price);
    assert(side_orders(placed.books[stock], side) == os.insert(k, o));
    assert(placed.books.contains_key(stock));
    // The new order is the first with its id.
    assert forall|j: int| 0 <= j < os.len() implies #[trigger] os[j].order_id != id by {
        if os[j].order_id == id {
            assert(has_id(os, id));
        }
    }
    assert(is_first_order(os.insert(k, o), id, k)) by {
        assert forall|j: int| 0 <= j < k implies #[trigger] os.insert(k, o)[j].order_id != id by {
            assert(os.insert(k, o)[j] == os[j]);
        }
    }
    lemma_order_index(os.insert(k, o), id, k);
    assert(order_of(side_orders(placed.books[stock], side), id) == o);
    // Releasing gives the balance back.
    lemma_currency_index_update(bals, cur, i, b1);
    assert(placed.balances[user] == bals.update(i, b1));
    assert(order_currency(placed, stock, side) == cur);
    let release = cancel_release(o, side);
    assert(release == amount);
    let m2 = adjust_balance(placed, user, cur, -release, release);
    assert(BalanceView {
        currency: b1.currency,
        locked: clamp(b1.locked + -release),
        available: clamp(b1.available + release),
    } == b);
    assert(m2.balances[user] =~= bals);
    assert(m2.balances =~= m.balances);
    // Removing the new order gives the book back.
    lemma_without_inserted(os, k, o);
    assert(m2.books[stock] == placed.books[stock]);
    let cancelled = after_cancel_order(placed, stock, id, side);
    assert(cancelled.books[stock] =~= bk);
    assert(cancelled.books =~= m.books);
}

// ---------------------------------------------------------------------------
// Holdings: what a user has of a currency, locked or not
// ---------------------------------------------------------------------------
/// What `user` holds of `cur`: locked plus available in the balance the
/// engine uses, 0 where there is none.
pub open spec fn holding(m: EngineView, user: u32, cur: Seq<char>) -> int {
    match balance_of(m, user, cur) {
        Some(b) => b.locked + b.available,
        None => 0,
    }
}

/// The balance of `user` in `cur`, if any, lies at least `margin` away from
/// the ends of `i128` on both counts.
pub open spec fn within_margin(m: EngineView, user: u32, cur: Seq<char>, margin: int) -> bool {
    match balance_of(m, user, cur) {
        Some(b) => {
            &&& -(i128::MAX - margin) <= b.locked <= i128::MAX - margin
            &&& -(i128::MAX - margin) <= b.available <= i128::MAX - margin
        },
        None => true,
    }
}

/// The balance of `user` in `cur`, if any, lies at least `2^65` away from
/// the ends of `i128` on both counts: a trade or a cancellation moves a
/// count by less than `2^64`, so it does not reach the ends, where
/// balances stop.
pub open spec fn within_range(m: EngineView, user: u32, cur: Seq<char>) -> bool {
    within_margin(m, user, cur, 0x2_0000_0000_0000_0000)
}

/// Where one currency appears in a list of balances depends only on the
/// currencies of the list.
proof fn lemma_currency_index_same_currencies(a: Seq<BalanceView>, b: Seq<BalanceView>, cur: Seq<char>)
    requires
        a.len() == b.len(),
        forall|i: int| 0 <= i < a.len() ==> #[trigger] a[i].currency == b[i].currency,
    ensures
        currency_index(a, cur) == currency_index(b, cur),
{
    if exists|j: int| is_first_currency(a, cur, j) {
        let j = choose|j: int| is_first_currency(a, cur, j);
        assert(is_first_currency(b, cur, j)) by {
            assert forall|k: int| 0 <= k < j implies #[trigger] b[k].currency != cur by {
                assert(a[k].currency != cur);
            }
        }
        lemma_currency_index(a, cur, j);
        lemma_currency_index(b, cur, j);
    } else if exists|j: int| is_first_currency(b, cur, j) {
        let j = choose|j: int| is_first_currency(b, cur, j);
        assert(is_first_currency(a, cur, j)) by {
            assert forall|k: int| 0 <= k < j implies #[trigger] a[k].currency != cur by {
                assert(b[k].currency != cur);
            }
        }
    }
}

/// A list with a balance in a currency has a first one.
proof fn lemma_currency_found(bals: Seq<BalanceView>, cur: Seq<char>, j: int)
    requires
        0 <= j < bals.len(),
        bals[j].currency == cur,
    ensures
        currency_index(bals, cur) is Some,
    decreases j,
{
    if exists|k: int| 0 <= k < j && #[trigger] bals[k].currency == cur {
        let k = choose|k: int| 0 <= k < j && #[trigger] bals[k].currency == cur;
        lemma_currency_found(bals, cur, k);
    } else {
        assert(is_first_currency(bals, cur, j));
    }
}

/// Appending a balance: it is the first in its currency where the list
/// had none, and the others are found where they were.
proof fn lemma_currency_index_push(bals: Seq<BalanceView>, nb: BalanceView, cur: Seq<char>)
    ensures
        nb.currency != cur ==> currency_index(bals.push(nb), cur) == currency_index(bals, cur),
        nb.currency == cur && currency_index(bals, cur) is None ==> currency_index(bals.push(nb), cur)
            == Some(bals.len() as int),
{
    let p = bals.push(nb);
    if exists|j: int| is_first_currency(bals, cur, j) {
        let j = choose|j: int| is_first_currency(bals, cur, j);
        assert(is_first_currency(p, cur, j)) by {
            assert forall|k: int| 0 <= k < j implies #[trigger] p[k].currency != cur by {
                assert(bals[k].currency != cur);
            }
        }
        lemma_currency_index(bals, cur, j);
        lemma_currency_index(p, cur, j);
    } else {
        assert forall|k: int| 0 <= k < bals.len() implies #[trigger] bals[k].currency != cur by {
            if bals[k].currency == cur {
                lemma_currency_found(bals, cur, k);
            }
        }
        if nb.currency == cur {
            assert(is_first_currency(p, cur, bals.len() as int)) by {
                assert forall|k: int| 0 <= k < bals.len() implies #[trigger] p[k].currency != cur by {
                    assert(bals[k].currency != cur);
                }
            }
            lemma_currency_index(p, cur, bals.len() as int);
        } else if exists|j: int| is_first_currency(p, cur, j) {
            let j = choose|j: int| is_first_currency(p, cur, j);
            if j < bals.len() {
                assert(bals[j].currency != cur);
            }
        }
    }
}

/// What moving one balance does to the balance of each user in each
/// currency.
pub proof fn lemma_adjust_balance_of(
    m: EngineView,
    u0: u32,
    c0: Seq<char>,
    dl: int,
    da: int,
    u: u32,
    c: Seq<char>,
)
    ensures
        balance_of(adjust_balance(m, u0, c0, dl, da), u, c) == if u == u0 && c == c0 {
            match balance_of(m, u0, c0) {
                Some(b) => Some(
                    BalanceView {
                        currency: b.currency,
                        locked: clamp(b.locked + dl),
                        available: clamp(b.available + da),
                    },
                ),
                None => None,
            }
        } else {
            balance_of(m, u, c)
        },
{
    let r = adjust_balance(m, u0, c0, dl, da);
    if m.balances.contains_key(u0) && u == u0 {
        let bals = m.balances[u0];
        match currency_index(bals, c0) {
            Some(i) => {
                let b = bals[i];
                let nb = BalanceView {
                    currency: b.currency,
                    locked: clamp(b.locked + dl),
                    available: clamp(b.available + da),
                };
                let j = choose|j: int| is_first_currency(bals, c0, j);
                assert(is_first_currency(bals, c0, j));
                lemma_currency_index_same_currencies(bals, bals.update(i, nb), c);
                if c != c0 {
                    match currency_index(bals, c) {
                        Some(k) => {
                            let kk = choose|kk: int| is_first_currency(bals, c, kk);
                            assert(is_first_currency(bals, c, kk));
                        },
                        None => {},
                    }
                }
            },
            None => {},
        }
    }
}

/// What crediting a balance does to the balance of each user in each
/// currency.
pub proof fn lemma_credit_balance_of(m: EngineView, u0: u32, c0: Seq<char>, a: int, u: u32, c: Seq<char>)
    ensures
        balance_of(credit_or_open(m, u0, c0, a), u, c) == if u == u0 && c == c0 {
            match balance_of(m, u0, c0) {
                Some(b) => Some(
                    BalanceView { currency: b.currency, locked: clamp(b.locked + 0), available: clamp(b.available + a) },
                ),
                None => if m.balances.contains_key(u0) {
                    Some(BalanceView { currency: c0, locked: 0, available: clamp(a) })
                } else {
                    None
                },
            }
        } else {
            balance_of(m, u, c)
        },
{
    if balance_of(m, u0, c0) is Some {
        lemma_adjust_balance_of(m, u0, c0, 0, a, u, c);
    } else if m.balances.contains_key(u0) && u == u0 {
        let nb = BalanceView { currency: c0, locked: 0, available: clamp(a) };
        lemma_currency_index_push(m.balances[u0], nb, c);
    }
}

/// Placing an order never changes what anyone holds of any currency: the
/// amount it locks moves from available to locked. This holds where the
/// locked balance does not run past the `i128` range.
pub proof fn law_add_order_keeps_holdings(
    m: EngineView,
    user: u32,
    order_type: OrderType,
    side: OrderSide,
    stock: u32,
    quantity: u32,
    price: u32,
    u: u32,
    c: Seq<char>,
)
    requires
        balance_of(m, user, order_currency(m, stock, side)) is Some ==> balance_of(
            m,
            user,
            order_currency(m, stock, side),
        )->0.locked + lock_amount(side, quantity, price) <= i128::MAX,
    ensures
        holding(after_add_order(m, user, order_type, side, stock, quantity, price), u, c)
            == holding(m, u, c),
{
    if order_accepted(m, user, side, stock, quantity, price) {
        let cur = order_currency(m, stock, side);
        let amount = lock_amount(side, quantity, price);
        vstd::arithmetic::mul::lemma_mul_nonnegative(quantity as int, price as int);
        lemma_adjust_balance_of(m, user, cur, amount, -amount, u, c);
        let m1 = adjust_balance(m, user, cur, amount, -amount);
        let o = new_order(m, user, order_type, side, stock, quantity, price);
        let r = after_add_order(m, user, order_type, side, stock, quantity, price);
        assert(r.balances == m1.balances);
        assert(balance_of(r, u, c) == balance_of(m1, u, c));
    }
}

/// Cancelling an order never changes what anyone holds of any currency:
/// the amount it releases moves from locked to available. This holds
/// where the owner's balance lies at least `2^65` from the ends of `i128`.
pub proof fn law_cancel_order_keeps_holdings(
    m: EngineView,
    stock: u32,
    id: u32,
    side: OrderSide,
    u: u32,
    c: Seq<char>,
)
    requires
        m.books.contains_key(stock),
        within_range(
            m,
            order_of(side_orders(m.books[stock], side), id).user_id,
            order_currency(m, stock, side),
        ),
    ensures
        holding(after_cancel_order(m, stock, id, side), u, c) == holding(m, u, c),
{
    let o = order_of(side_orders(m.books[stock], side), id);
    let release = cancel_release(o, side);
    let cur = order_currency(m, stock, side);
    let rem = o.quantity - o.filled_quantity;
    let a = if rem >= 0 { rem } else { -rem };
    vstd::arithmetic::mul::lemma_mul_upper_bound(a, u32::MAX as int, o.price as int, u32::MAX as int);
    vstd::arithmetic::mul::lemma_mul_nonnegative(a, o.price as int);
    if rem < 0 {
        vstd::arithmetic::mul::lemma_mul_unary_negation(a, o.price as int);
    }
    lemma_adjust_balance_of(m, o.user_id, cur, -release, release, u, c);
    let m1 = adjust_balance(m, o.user_id, cur, -release, release);
    crate::model::lemma_balance_steps_keep_books(m, o.user_id, cur, -release, release);
    let r = after_cancel_order(m, stock, id, side);
    assert(r.balances == m1.balances);
    assert(balance_of(r, u, c) == balance_of(m1, u, c));
}

/// What the users of `users` hold of `cur` together.
pub open spec fn total_held(m: EngineView, users: Seq<u32>, cur: Seq<char>) -> int
    decreases users.len(),
{
    if users.len() == 0 {
        0
    } else {
        total_held(m, users.drop_last(), cur) + holding(m, users.last(), cur)
    }
}

/// How a total over distinct users changes when only two users' holdings
/// change.
proof fn lemma_total_delta(r: EngineView, m: EngineView, users: Seq<u32>, bu: u32, au: u32, c: Seq<char>)
    requires
        users.no_duplicates(),
        forall|u: u32| u != bu && u != au ==> #[trigger] holding(r, u, c) == holding(m, u, c),
    ensures
        total_held(r, users, c) - total_held(m, users, c) == (if users.contains(bu) {
            holding(r, bu, c) - holding(m, bu, c)
        } else {
            0
        }) + (if users.contains(au) && au != bu {
            holding(r, au, c) - holding(m, au, c)
        } else {
            0
        }),
    decreases users.len(),
{
    if users.len() > 0 {
        let d = users.drop_last();
        let x = users.last();
        assert(d.no_duplicates());
        lemma_total_delta(r, m, d, bu, au, c);
        assert(!d.contains(x)) by {
            if d.contains(x) {
                let j = choose|j: int| 0 <= j < d.len() && d[j] == x;
                assert(users[j] == users[users.len() - 1]);
            }
        }
        assert forall|u: u32| users.contains(u) <==> d.contains(u) || u == x by {
            if users.contains(u) {
                let j = choose|j: int| 0 <= j < users.len() && users[j] == u;
                if j < users.len() - 1 {
                    assert(d[j] == u);
                }
            }
            if d.contains(u) {
                let j = choose|j: int| 0 <= j < d.len() && d[j] == u;
                assert(users[j] == u);
            }
            if u == x {
                assert(users[users.len() - 1] == u);
            }
        }
    }
}

/// Settling a trade moves funds between the two parties and nowhere else:
/// for each currency, what the buyer and the seller hold together is
/// unchanged (what one holds, where they are the same user), every other
/// user's balances are unchanged, and so the total held by any list of
/// distinct users that names both parties (such as all users with
/// balances) is unchanged. This holds where the buyer has a balance in the
/// quote currency and the seller one in the base currency (a credit to a
/// user without any balances is lost), and the parties' balances in both
/// currencies lie at least `2^65` from the ends of `i128`, where they would
/// stop.
pub proof fn law_settle_trade_conserves_holdings(
    m: EngineView,
    price: u32,
    quantity: u32,
    stock: u32,
    bid_id: u32,
    ask_id: u32,
    c: Seq<char>,
    u: u32,
    users: Seq<u32>,
)
    requires
        m.stocks.contains_key(stock),
        m.books.contains_key(stock),
        ({
            let buyer = order_of(m.books[stock].bids, bid_id).user_id;
            let seller = order_of(m.books[stock].asks, ask_id).user_id;
            let base = m.stocks[stock].base;
            let quote = m.stocks[stock].quote;
            &&& balance_of(m, buyer, quote) is Some
            &&& balance_of(m, seller, base) is Some
            &&& within_range(m, buyer, base)
            &&& within_range(m, buyer, quote)
            &&& within_range(m, seller, base)
            &&& within_range(m, seller, quote)
        }),
    ensures
        ({
            let r = after_settle_trade(m, price, quantity, stock, bid_id, ask_id);
            let buyer = order_of(m.books[stock].bids, bid_id).user_id;
            let seller = order_of(m.books[stock].asks, ask_id).user_id;
            &&& buyer != seller ==> holding(r, buyer, c) + holding(r, seller, c) == holding(m, buyer, c)
                + holding(m, seller, c)
            &&& buyer == seller ==> holding(r, buyer, c) == holding(m, buyer, c)
            &&& u != buyer && u != seller ==> balance_of(r, u, c) == balance_of(m, u, c)
            &&& users.no_duplicates() && users.contains(buyer) && users.contains(seller)
                ==> total_held(r, users, c) == total_held(m, users, c)
        }),
{
    lemma_settle_parts(m, price, quantity, stock, bid_id, ask_id);
    let base = m.stocks[stock].base;
    let quote = m.stocks[stock].quote;
    let bid = order_of(m.books[stock].bids, bid_id);
    let ask = order_of(m.books[stock].asks, ask_id);
    let bu = bid.user_id;
    let au = ask.user_id;
    let cost = price * quantity;
    let q = quantity as int;
    proof_cost_bound(price, quantity);
    let f = fill_both(m, stock, bid_id, ask_id, quantity);
    let p = pay_trade(f, bu, au, base, quote, cost, q);
    let l = with_last_price(p, stock, price);
    let r = after_settle_trade(m, price, quantity, stock, bid_id, ask_id);
    let m8 = if filled_by(bid, quantity) {
        after_remove_order(l, stock, bid_id, OrderSide::Buy)
    } else {
        l
    };
    assert(m8.balances == l.balances);
    assert(r.balances == p.balances);
    assert forall|uu: u32, cc: Seq<char>| #![trigger balance_of(r, uu, cc)]
        balance_of(r, uu, cc) == balance_of(p, uu, cc) by {
    }
    assert forall|uu: u32, cc: Seq<char>| #![trigger balance_of(f, uu, cc)]
        balance_of(f, uu, cc) == balance_of(m, uu, cc) by {
    }
    lemma_settle_holding(f, bu, au, base, quote, cost, q, c);
    if u != bu && u != au {
        lemma_pay_trade_others(f, bu, au, base, quote, cost, q, u, c);
    }
    assert forall|uu: u32| uu != bu && uu != au implies #[trigger] holding(r, uu, c) == holding(m, uu, c) by {
        lemma_pay_trade_others(f, bu, au, base, quote, cost, q, uu, c);
    }
    if users.no_duplicates() && users.contains(bu) && users.contains(au) {
        lemma_total_delta(r, m, users, bu, au, c);
    }
}

/// Paying a trade leaves the balances of everyone else as they were.
proof fn lemma_pay_trade_others(
    m: EngineView,
    bu: u32,
    au: u32,
    base: Seq<char>,
    quote: Seq<char>,
    cost: int,
    q: int,
    u: u32,
    c: Seq<char>,
)
    requires
        u != bu,
        u != au,
    ensures
        balance_of(pay_trade(m, bu, au, base, quote, cost, q), u, c) == balance_of(m, u, c),
{
    let m3 = adjust_balance(m, bu, quote, -cost, 0);
    let m4 = credit_or_open(m3, bu, base, q);
    let m5 = adjust_balance(m4, au, base, -q, 0);
    lemma_adjust_balance_of(m, bu, quote, -cost, 0, u, c);
    lemma_credit_balance_of(m3, bu, base, q, u, c);
    lemma_adjust_balance_of(m4, au, base, -q, 0, u, c);
    lemma_credit_balance_of(m5, au, quote, cost, u, c);
}

/// The cost of a trade fits far inside the range of balances.
proof fn proof_cost_bound(price: u32, quantity: u32)
    ensures
        0 <= price * quantity <= u32::MAX * u32::MAX,
{
    vstd::arithmetic::mul::lemma_mul_upper_bound(price as int, u32::MAX as int, quantity as int, u32::MAX as int);
    vstd::arithmetic::mul::lemma_mul_nonnegative(price as int, quantity as int);
}

/// The four balance steps of a trade, on their own: for each currency, the
/// two parties together hold what they held.
proof fn lemma_settle_holding(
    m: EngineView,
    bu: u32,
    au: u32,
    base: Seq<char>,
    quote: Seq<char>,
    cost: int,
    q: int,
    c: Seq<char>,
)
    requires
        0 <= cost <= u32::MAX * u32::MAX,
        0 <= q <= u32::MAX,
        balance_of(m, bu, quote) is Some,
        balance_of(m, au, base) is Some,
        within_range(m, bu, base),
        within_range(m, bu, quote),
        within_range(m, au, base),
        within_range(m, au, quote),
    ensures
        ({
            let m6 = pay_trade(m, bu, au, base, quote, cost, q);
            &&& bu != au ==> holding(m6, bu, c) + holding(m6, au, c) == holding(m, bu, c) + holding(m, au, c)
            &&& bu == au ==> holding(m6, bu, c) == holding(m, bu, c)
        }),
{
    let m3 = adjust_balance(m, bu, quote, -cost, 0);
    let m4 = credit_or_open(m3, bu, base, q);
    let m5 = adjust_balance(m4, au, base, -q, 0);
    let m6 = credit_or_open(m5, au, quote, cost);
    assert(m.balances.contains_key(bu));
    assert(m.balances.contains_key(au));
    lemma_adjust_balance_of(m, bu, quote, -cost, 0, bu, c);
    lemma_adjust_balance_of(m, bu, quote, -cost, 0, au, c);
    lemma_adjust_balance_of(m, bu, quote, -cost, 0, bu, base);
    lemma_adjust_balance_of(m, bu, quote, -cost, 0, au, base);
    lemma_adjust_balance_of(m, bu, quote, -cost, 0, au, quote);
    lemma_credit_balance_of(m3, bu, base, q, bu, c);
    lemma_credit_balance_of(m3, bu, base, q, au, c);
    lemma_credit_balance_of(m3, bu, base, q, au, base);
    lemma_credit_balance_of(m3, bu, base, q, au, quote);
    lemma_adjust_balance_of(m4, au, base, -q, 0, bu, c);
    lemma_adjust_balance_of(m4, au, base, -q, 0, au, c);
    lemma_adjust_balance_of(m4, au, base, -q, 0, au, quote);
    lemma_credit_balance_of(m5, au, quote, cost, bu, c);
    lemma_credit_balance_of(m5, au, quote, cost, au, c);
    lemma_adjust_balance_of(m, bu, quote, -cost, 0, bu, quote);
    lemma_credit_balance_of(m3, bu, base, q, bu, quote);
    lemma_adjust_balance_of(m4, au, base, -q, 0, bu, quote);
    lemma_adjust_balance_of(m4, au, base, -q, 0, bu, base);
    lemma_credit_balance_of(m3, bu, base, q, bu, base);
}

// ---------------------------------------------------------------------------
// Each order has an id of its own
// ---------------------------------------------------------------------------
/// Every id of `new` is the id of some order of `old`.
pub open spec fn ids_from(new: Seq<Order>, old: Seq<Order>) -> bool {
    forall|i: int| #![trigger new[i]] 0 <= i < new.len() ==> has_id(old, new[i].order_id)
}

/// Some order of `s` has id `id`.
pub open spec fn has_id(s: Seq<Order>, id: u32) -> bool {
    exists|j: int| #![trigger s[j]] 0 <= j < s.len() && s[j].order_id == id
}

/// Sides whose ids come from sides apart are apart.
proof fn lemma_apart_from(a2: Seq<Order>, a: Seq<Order>, b2: Seq<Order>, b: Seq<Order>)
    requires
        ids_apart(a, b),
        ids_from(a2, a),
        ids_from(b2, b),
    ensures
        ids_apart(a2, b2),
{
    assert forall|i: int, j: int| 0 <= i < a2.len() && 0 <= j < b2.len() implies #[trigger] a2[i].order_id
        != #[trigger] b2[j].order_id by {
        let x = choose|x: int| 0 <= x < a.len() && a2[i].order_id == a[x].order_id;
        let y = choose|y: int| 0 <= y < b.len() && b2[j].order_id == b[y].order_id;
        assert(a[x].order_id != b[y].order_id);
    }
}

/// A side takes its ids from itself.
proof fn lemma_ids_from_self(a: Seq<Order>)
    ensures
        ids_from(a, a),
{
    assert forall|i: int| #![trigger a[i]] 0 <= i < a.len() implies has_id(a, a[i].order_id) by {
        assert(a[i].order_id == a[i].order_id);
    }
}

/// Removing an id keeps the ids of a side distinct and drawn from it.
proof fn lemma_without_order_distinct(s: Seq<Order>, id: u32)
    requires
        ids_distinct(s),
    ensures
        ids_distinct(without_order(s, id)),
        ids_from(without_order(s, id), s),
    decreases s.len(),
{
    reveal(Seq::filter);
    lemma_without_order_from(s, id);
    let w = without_order(s, id);
    assert forall|i: int| #![trigger w[i]] 0 <= i < w.len() implies exists|j: int| #![trigger s[j]] 0 <= j < s.len() && w[i].order_id
        == s[j].order_id by {
        let j = choose|j: int| 0 <= j < s.len() && w[i] == s[j];
        assert(w[i].order_id == s[j].order_id);
    }
    if s.len() > 0 {
        let d = s.drop_last();
        lemma_without_order_distinct(d, id);
        lemma_without_order_from(d, id);
        let f = without_order(d, id);
        assert forall|i: int, j: int| 0 <= i < j < w.len() implies #[trigger] w[i].order_id
            != #[trigger] w[j].order_id by {
            if j >= f.len() {
                let k = choose|k: int| 0 <= k < d.len() && f[i] == d[k];
                assert(s[k].order_id != s[s.len() - 1].order_id);
            } else {
                assert(f[i].order_id != f[j].order_id);
            }
        }
    }
}

/// Replacing one book by one whose sides keep distinct ids drawn from the
/// same sides keeps every id unique.
proof fn lemma_replace_book_unique(m: EngineView, stock: u32, b: BookView)
    requires
        ids_unique(m),
        m.books.contains_key(stock),
        ids_distinct(b.bids),
        ids_distinct(b.asks),
        ids_from(b.bids, m.books[stock].bids),
        ids_from(b.asks, m.books[stock].asks),
    ensures
        ids_unique(with_book(m, stock, b)),
{
    let r = with_book(m, stock, b);
    assert forall|s: u32| #[trigger] r.books.contains_key(s) implies ids_from(r.books[s].bids, m.books[s].bids)
        && ids_from(r.books[s].asks, m.books[s].asks) by {
        if s != stock {
            lemma_ids_from_self(m.books[s].bids);
            lemma_ids_from_self(m.books[s].asks);
        }
    }
    assert forall|s: u32| #[trigger] r.books.contains_key(s) implies {
        &&& ids_distinct(r.books[s].bids)
        &&& ids_distinct(r.books[s].asks)
        &&& ids_apart(r.books[s].bids, r.books[s].asks)
    } by {
        assert(m.books.contains_key(s));
        lemma_apart_from(r.books[s].bids, m.books[s].bids, r.books[s].asks, m.books[s].asks);
    }
    assert forall|s: u32, t: u32|
        #[trigger] r.books.contains_key(s) && #[trigger] r.books.contains_key(t) && s != t implies {
        &&& ids_apart(r.books[s].bids, r.books[t].bids)
        &&& ids_apart(r.books[s].bids, r.books[t].asks)
        &&& ids_apart(r.books[s].asks, r.books[t].asks)
    } by {
        assert(m.books.contains_key(s) && m.books.contains_key(t));
        lemma_apart_from(r.books[s].bids, m.books[s].bids, r.books[t].bids, m.books[t].bids);
        lemma_apart_from(r.books[s].bids, m.books[s].bids, r.books[t].asks, m.books[t].asks);
        lemma_apart_from(r.books[s].asks, m.books[s].asks, r.books[t].asks, m.books[t].asks);
    }
}

/// Removing an order keeps every id unique.
pub proof fn law_remove_order_keeps_ids_unique(m: EngineView, stock: u32, id: u32, side: OrderSide)
    requires
        ids_unique(m),
        m.books.contains_key(stock),
    ensures
        ids_unique(after_remove_order(m, stock, id, side)),
{
    let b = m.books[stock];
    lemma_without_order_distinct(b.bids, id);
    lemma_without_order_distinct(b.asks, id);
    lemma_ids_from_self(b.bids);
    lemma_ids_from_self(b.asks);
    lemma_replace_book_unique(m, stock, with_side_orders(b, side, without_order(side_orders(b, side), id)));
}

/// Filling an order keeps every id unique.
#[verifier::rlimit(40)]
proof fn lemma_fill_unique(m: EngineView, stock: u32, side: OrderSide, id: u32, quantity: u32)
    requires
        ids_unique(m),
        m.books.contains_key(stock),
    ensures
        ids_unique(fill_order(m, stock, side, id, quantity)),
{
    let b = m.books[stock];
    let os = side_orders(b, side);
    match order_index(os, id) {
        Some(i) => {
            let o = os[i];
            let os2 = os.update(i, Order { filled_quantity: crate::model::sat_add_u32(o.filled_quantity, quantity), ..o });
            let b2 = with_side_orders(b, side, os2);
            lemma_ids_from_self(b.bids);
            lemma_ids_from_self(b.asks);
            assert(ids_from(os2, os)) by {
                assert forall|k: int| #![trigger os2[k]] 0 <= k < os2.len() implies exists|j: int| #![trigger os[j]] 0 <= j < os.len() && os2[k].order_id
                    == os[j].order_id by {
                    assert(os2[k].order_id == os[k].order_id);
                }
            }
            assert(ids_distinct(os2)) by {
                assert forall|x: int, y: int| 0 <= x < y < os2.len() implies #[trigger] os2[x].order_id
                    != #[trigger] os2[y].order_id by {
                    assert(os[x].order_id != os[y].order_id);
                }
            }
            lemma_replace_book_unique(m, stock, b2);
        },
        None => {},
    }
}

/// Settling a trade keeps every id unique.
pub proof fn law_settle_trade_keeps_ids_unique(
    m: EngineView,
    price: u32,
    quantity: u32,
    stock: u32,
    bid_id: u32,
    ask_id: u32,
)
    requires
        ids_unique(m),
        m.books.contains_key(stock),
    ensures
        ids_unique(after_settle_trade(m, price, quantity, stock, bid_id, ask_id)),
{
    lemma_settle_parts(m, price, quantity, stock, bid_id, ask_id);
    let bid = order_of(m.books[stock].bids, bid_id);
    let ask = order_of(m.books[stock].asks, ask_id);
    let m1 = fill_order(m, stock, OrderSide::Buy, bid_id, quantity);
    lemma_fill_unique(m, stock, OrderSide::Buy, bid_id, quantity);
    crate::model::lemma_fill_shape(m, stock, OrderSide::Buy, bid_id, quantity);
    lemma_fill_unique(m1, stock, OrderSide::Sell, ask_id, quantity);
    let f = fill_both(m, stock, bid_id, ask_id, quantity);
    let p = pay_trade(f, bid.user_id, ask.user_id, m.stocks[stock].base, m.stocks[stock].quote, price * quantity, quantity as int);
    assert(ids_unique(p));
    let b = p.books[stock];
    lemma_ids_from_self(b.bids);
    lemma_ids_from_self(b.asks);
    lemma_replace_book_unique(p, stock, BookView { bids: b.bids, asks: b.asks, last_traded_price: Some(price) });
    let l = with_last_price(p, stock, price);
    let m8 = if filled_by(bid, quantity) {
        law_remove_order_keeps_ids_unique(l, stock, bid_id, OrderSide::Buy);
        after_remove_order(l, stock, bid_id, OrderSide::Buy)
    } else {
        l
    };
    assert(m8.books.contains_key(stock));
    if filled_by(ask, quantity) {
        law_remove_order_keeps_ids_unique(m8, stock, ask_id, OrderSide::Sell);
    }
}

/// Cancelling an order keeps every id unique.
pub proof fn law_cancel_order_keeps_ids_unique(m: EngineView, stock: u32, id: u32, side: OrderSide)
    requires
        ids_unique(m),
        m.books.contains_key(stock),
    ensures
        ids_unique(after_cancel_order(m, stock, id, side)),
{
    let o = order_of(side_orders(m.books[stock], side), id);
    let release = cancel_release(o, side);
    let cur = order_currency(m, stock, side);
    crate::model::lemma_balance_steps_keep_books(m, o.user_id, cur, -release, release);
    law_remove_order_keeps_ids_unique(adjust_balance(m, o.user_id, cur, -release, release), stock, id, side);
}

/// Matching keeps every id unique.
pub proof fn law_match_order_keeps_ids_unique(m: EngineView, stock: u32)
    requires
        ids_unique(m),
    ensures
        ids_unique(after_match_order(m, stock)),
    decreases crate::model::book_size(m, stock),
{
    if m.books.contains_key(stock) && m.stocks.contains_key(stock) && crossed(m.books[stock]) {
        let b = m.books[stock];
        lemma_match_step_shrinks(m, stock);
        law_settle_trade_keeps_ids_unique(
            m,
            b.asks[0].price,
            min_u32(b.bids[0].quantity, b.asks[0].quantity),
            stock,
            b.bids[0].order_id,
            b.asks[0].order_id,
        );
        law_match_order_keeps_ids_unique(after_match_step(m, stock), stock);
    }
}

/// A side with a new order of an id above all of another side's stays
/// apart from it, on either hand.
proof fn lemma_apart_insert(os: Seq<Order>, k: int, o: Order, c: Seq<Order>)
    requires
        0 <= k <= os.len(),
        ids_apart(os, c),
        orders_below(c, o.order_id),
    ensures
        ids_apart(os.insert(k, o), c),
        ids_apart(c, os.insert(k, o)),
{
    let ns = os.insert(k, o);
    assert forall|i: int, j: int| 0 <= i < ns.len() && 0 <= j < c.len() implies #[trigger] ns[i].order_id
        != #[trigger] c[j].order_id by {
        if i < k {
            assert(ns[i] == os[i]);
            assert(os[i].order_id != c[j].order_id);
        } else if i > k {
            assert(ns[i] == os[i - 1]);
            assert(os[i - 1].order_id != c[j].order_id);
        }
    }
    assert forall|j: int, i: int| 0 <= j < c.len() && 0 <= i < ns.len() implies #[trigger] c[j].order_id
        != #[trigger] ns[i].order_id by {
        if i < k {
            assert(ns[i] == os[i]);
            assert(os[i].order_id != c[j].order_id);
        } else if i > k {
            assert(ns[i] == os[i - 1]);
            assert(os[i - 1].order_id != c[j].order_id);
        }
    }
}

/// A side stays apart from itself and from other sides in the other
/// direction too.
proof fn lemma_apart_flip(a: Seq<Order>, b: Seq<Order>)
    requires
        ids_apart(a, b),
    ensures
        ids_apart(b, a),
{
    assert forall|i: int, j: int| 0 <= i < b.len() && 0 <= j < a.len() implies #[trigger] b[i].order_id
        != #[trigger] a[j].order_id by {
        assert(a[j].order_id != b[i].order_id);
    }
}

/// Putting an order with the next id into one side of a book keeps every
/// id unique, where every resting order has an id below the next id.
proof fn lemma_insert_fresh_unique(m: EngineView, stock: u32, side: OrderSide, k: int, o: Order)
    requires
        ids_unique(m),
        ids_below(m),
        m.books.contains_key(stock),
        o.order_id == m.order_number,
        0 <= k <= side_orders(m.books[stock], side).len(),
    ensures
        ids_unique(
            with_book(
                m,
                stock,
                with_side_orders(m.books[stock], side, side_orders(m.books[stock], side).insert(k, o)),
            ),
        ),
{
    let b = m.books[stock];
    let os = side_orders(b, side);
    let ns = os.insert(k, o);
    let n = m.order_number;
    let r = with_book(m, stock, with_side_orders(b, side, ns));
    assert(orders_below(os, n));
    assert(ids_distinct(ns)) by {
        assert forall|x: int, y: int| 0 <= x < y < ns.len() implies #[trigger] ns[x].order_id
            != #[trigger] ns[y].order_id by {
            if x < k && y < k {
                assert(os[x].order_id != os[y].order_id);
            } else if x < k && y == k {
                assert(os[x].order_id < n);
            } else if x < k {
                assert(ns[y] == os[y - 1]);
                assert(os[x].order_id != os[y - 1].order_id);
            } else if x == k {
                assert(ns[y] == os[y - 1]);
                assert(os[y - 1].order_id < n);
            } else {
                assert(ns[x] == os[x - 1]);
                assert(ns[y] == os[y - 1]);
                assert(os[x - 1].order_id != os[y - 1].order_id);
            }
        }
    }
    // The other side of the same book.
    let other = side_orders(b, if side == OrderSide::Buy { OrderSide::Sell } else { OrderSide::Buy });
    assert(orders_below(other, n));
    if side == OrderSide::Buy {
        lemma_apart_insert(os, k, o, other);
    } else {
        lemma_apart_flip(b.bids, b.asks);
        lemma_apart_insert(os, k, o, other);
    }
    assert forall|t: u32| #[trigger] r.books.contains_key(t) && t != stock implies {
        &&& ids_apart(r.books[stock].bids, r.books[t].bids)
        &&& ids_apart(r.books[stock].bids, r.books[t].asks)
        &&& ids_apart(r.books[stock].asks, r.books[t].asks)
        &&& ids_apart(r.books[t].bids, r.books[stock].bids)
        &&& ids_apart(r.books[t].bids, r.books[stock].asks)
        &&& ids_apart(r.books[t].asks, r.books[stock].asks)
    } by {
        assert(m.books.contains_key(t));
        let c = m.books[t];
        assert(orders_below(c.bids, n) && orders_below(c.asks, n));
        assert(ids_apart(b.bids, c.bids) && ids_apart(b.bids, c.asks) && ids_apart(b.asks, c.asks));
        assert(ids_apart(c.bids, b.bids) && ids_apart(c.bids, b.asks) && ids_apart(c.asks, b.asks));
        lemma_apart_flip(c.bids, b.asks);
        lemma_apart_flip(b.asks, c.bids);
        if side == OrderSide::Buy {
            lemma_apart_insert(os, k, o, c.bids);
            lemma_apart_insert(os, k, o, c.asks);
        } else {
            lemma_apart_insert(os, k, o, c.bids);
            lemma_apart_insert(os, k, o, c.asks);
        }
    }
    assert forall|s: u32| #[trigger] r.books.contains_key(s) implies {
        &&& ids_distinct(r.books[s].bids)
        &&& ids_distinct(r.books[s].asks)
        &&& ids_apart(r.books[s].bids, r.books[s].asks)
    } by {
        if s != stock {
            assert(m.books.contains_key(s));
        }
    }
    assert forall|s: u32, t: u32|
        #[trigger] r.books.contains_key(s) && #[trigger] r.books.contains_key(t) && s != t implies {
        &&& ids_apart(r.books[s].bids, r.books[t].bids)
        &&& ids_apart(r.books[s].bids, r.books[t].asks)
        &&& ids_apart(r.books[s].asks, r.books[t].asks)
    } by {
        if s != stock && t != stock {
            assert(m.books.contains_key(s) && m.books.contains_key(t));
        }
    }
}

/// Placing an order keeps every id unique: the order gets the next id,
/// above every id in the books.
pub proof fn law_add_order_keeps_ids_unique(
    m: EngineView,
    user: u32,
    order_type: OrderType,
    side: OrderSide,
    stock: u32,
    quantity: u32,
    price: u32,
)
    requires
        ids_unique(m),
        ids_below(m),
    ensures
        ids_unique(after_add_order(m, user, order_type, side, stock, quantity, price)),
{
    if order_accepted(m, user, side, stock, quantity, price) {
        let amount = lock_amount(side, quantity, price);
        let cur = order_currency(m, stock, side);
        let m1 = adjust_balance(m, user, cur, amount, -amount);
        crate::model::lemma_balance_steps_keep_books(m, user, cur, amount, -amount);
        let o = new_order(m, user, order_type, side, stock, quantity, price);
        assert(ids_unique(m1) && ids_below(m1));
        if m1.books.contains_key(stock) {
            let b = m1.books[stock];
            lemma_bid_slot_exists(b.bids, price);
            lemma_ask_slot_exists(b.asks, price);
            let k = match side {
                OrderSide::Buy => bid_slot(b.bids, price),
                OrderSide::Sell => ask_slot(b.asks, price),
            };
            lemma_insert_fresh_unique(m1, stock, side, k, o);
            let m2 = match side {
                OrderSide::Buy => after_add_bid(m1, stock, o),
                OrderSide::Sell => after_add_ask(m1, stock, o),
            };
            assert(m2 == with_book(m1, stock, with_side_orders(b, side, side_orders(b, side).insert(k, o))));
        }
    }
}

// ---------------------------------------------------------------------------
// Matching conserves funds
// ---------------------------------------------------------------------------
/// Paying a trade moves any count of any balance by less than `2^65`, and
/// keeps every balance there is.
proof fn lemma_pay_trade_margin(
    m: EngineView,
    bu: u32,
    au: u32,
    base: Seq<char>,
    quote: Seq<char>,
    cost: int,
    q: int,
    u: u32,
    c: Seq<char>,
    margin: int,
)
    requires
        0 <= cost <= u32::MAX * u32::MAX,
        0 <= q <= u32::MAX,
        0x2_0000_0000_0000_0000 <= margin <= i128::MAX,
        within_margin(m, u, c, margin),
    ensures
        within_margin(pay_trade(m, bu, au, base, quote, cost, q), u, c, margin - 0x2_0000_0000_0000_0000),
        balance_of(m, u, c) is Some ==> balance_of(pay_trade(m, bu, au, base, quote, cost, q), u, c) is Some,
{
    let m3 = adjust_balance(m, bu, quote, -cost, 0);
    let m4 = credit_or_open(m3, bu, base, q);
    let m5 = adjust_balance(m4, au, base, -q, 0);
    lemma_adjust_balance_of(m, bu, quote, -cost, 0, u, c);
    lemma_credit_balance_of(m3, bu, base, q, u, c);
    lemma_adjust_balance_of(m4, au, base, -q, 0, u, c);
    lemma_credit_balance_of(m5, au, quote, cost, u, c);
}

/// Every order in the book of `stock` belongs to a user of `users` who has
/// a balance in the currency the order pays with: quote for a bid, base
/// for an ask.
pub open spec fn owners_ready(m: EngineView, stock: u32, users: Seq<u32>) -> bool {
    &&& forall|i: int|
        #![trigger m.books[stock].bids[i]]
        0 <= i < m.books[stock].bids.len() ==> users.contains(m.books[stock].bids[i].user_id)
            && balance_of(m, m.books[stock].bids[i].user_id, m.stocks[stock].quote) is Some
    &&& forall|i: int|
        #![trigger m.books[stock].asks[i]]
        0 <= i < m.books[stock].asks.len() ==> users.contains(m.books[stock].asks[i].user_id)
            && balance_of(m, m.books[stock].asks[i].user_id, m.stocks[stock].base) is Some
}

/// The balances of every user of `users` in both currencies of `stock`
/// lie at least `margin` from the ends of `i128`.
pub open spec fn users_within(m: EngineView, stock: u32, users: Seq<u32>, margin: int) -> bool {
    forall|i: int|
        0 <= i < users.len() ==> within_margin(m, #[trigger] users[i], m.stocks[stock].base, margin)
            && within_margin(m, users[i], m.stocks[stock].quote, margin)
}

/// One round of matching keeps the owners of the book among `users` with
/// their paying balances, moves their balances by less than `2^65`, and
/// keeps the total that `users` hold of any currency.
proof fn lemma_round_ready(m: EngineView, stock: u32, users: Seq<u32>, margin: int, c: Seq<char>)
    requires
        m.books.contains_key(stock),
        m.stocks.contains_key(stock),
        crossed(m.books[stock]),
        users.no_duplicates(),
        owners_ready(m, stock, users),
        users_within(m, stock, users, margin),
        0x4_0000_0000_0000_0000 <= margin <= i128::MAX,
    ensures
        ({
            let r = after_match_step(m, stock);
            &&& owners_ready(r, stock, users)
            &&& users_within(r, stock, users, margin - 0x2_0000_0000_0000_0000)
            &&& total_held(r, users, c) == total_held(m, users, c)
        }),
{
    let b = m.books[stock];
    crate::model::lemma_first_is_found(b.bids);
    crate::model::lemma_first_is_found(b.asks);
    let bid = b.bids[0];
    let ask = b.asks[0];
    let q = min_u32(bid.quantity, ask.quantity);
    let price = ask.price;
    let base = m.stocks[stock].base;
    let quote = m.stocks[stock].quote;
    lemma_match_step_shrinks(m, stock);
    lemma_settle_parts(m, price, q, stock, bid.order_id, ask.order_id);
    proof_cost_bound(price, q);
    let bu = bid.user_id;
    let au = ask.user_id;
    let f = fill_both(m, stock, bid.order_id, ask.order_id, q);
    let p = pay_trade(f, bu, au, base, quote, price * q, q as int);
    let l = with_last_price(p, stock, price);
    let r = after_match_step(m, stock);
    assert(r == after_settle_trade(m, price, q, stock, bid.order_id, ask.order_id));
    // The two parties are users within range.
    assert(users.contains(bu) && users.contains(au));
    let ib = choose|i: int| 0 <= i < users.len() && users[i] == bu;
    let ia = choose|i: int| 0 <= i < users.len() && users[i] == au;
    assert(within_margin(m, users[ib], base, margin) && within_margin(m, users[ib], quote, margin));
    assert(within_margin(m, users[ia], base, margin) && within_margin(m, users[ia], quote, margin));
    law_settle_trade_conserves_holdings(m, price, q, stock, bid.order_id, ask.order_id, c, bu, users);
    // Balances: the rest of settling keeps them as paying leaves them.
    let m8 = if filled_by(bid, q) {
        after_remove_order(l, stock, bid.order_id, OrderSide::Buy)
    } else {
        l
    };
    assert(m8.balances == p.balances);
    assert(r.balances == p.balances);
    assert(f.balances == m.balances);
    assert(r.stocks == m.stocks);
    assert forall|i: int| 0 <= i < users.len() implies within_margin(r, #[trigger] users[i], base, margin - 0x2_0000_0000_0000_0000)
        && within_margin(r, users[i], quote, margin - 0x2_0000_0000_0000_0000) by {
        lemma_pay_trade_margin(f, bu, au, base, quote, price * q, q as int, users[i], base, margin);
        lemma_pay_trade_margin(f, bu, au, base, quote, price * q, q as int, users[i], quote, margin);
    }
    // Owners: every order left was an order of the book before.
    lemma_without_order_from(l.books[stock].bids, bid.order_id);
    assert(m8.books[stock].asks == l.books[stock].asks);
    lemma_without_order_from(m8.books[stock].asks, ask.order_id);
    assert forall|i: int| 0 <= i < r.books[stock].bids.len() implies exists|j: int|
        0 <= j < b.bids.len() && #[trigger] r.books[stock].bids[i].user_id == b.bids[j].user_id by {
        if filled_by(bid, q) {
            let j = choose|j: int| 0 <= j < l.books[stock].bids.len() && without_order(l.books[stock].bids, bid.order_id)[i] == l.books[stock].bids[j];
            assert(r.books[stock].bids[i].user_id == b.bids[j].user_id);
        } else {
            assert(r.books[stock].bids[i].user_id == b.bids[i].user_id);
        }
    }
    assert forall|i: int| 0 <= i < r.books[stock].asks.len() implies exists|j: int|
        0 <= j < b.asks.len() && #[trigger] r.books[stock].asks[i].user_id == b.asks[j].user_id by {
        if filled_by(ask, q) {
            let j = choose|j: int| 0 <= j < m8.books[stock].asks.len() && without_order(m8.books[stock].asks, ask.order_id)[i] == m8.books[stock].asks[j];
            assert(r.books[stock].asks[i].user_id == b.asks[j].user_id);
        } else {
            assert(r.books[stock].asks[i].user_id == b.asks[i].user_id);
        }
    }
    assert forall|i: int| #![trigger r.books[stock].bids[i]] 0 <= i < r.books[stock].bids.len() implies users.contains(r.books[stock].bids[i].user_id)
        && balance_of(r, r.books[stock].bids[i].user_id, quote) is Some by {
        let j = choose|j: int| 0 <= j < b.bids.len() && r.books[stock].bids[i].user_id == b.bids[j].user_id;
        let uid = b.bids[j].user_id;
        assert(b.bids[j] == m.books[stock].bids[j]);
        assert(users.contains(uid));
        let k = choose|k: int| 0 <= k < users.len() && users[k] == uid;
        lemma_pay_trade_margin(f, bu, au, base, quote, price * q, q as int, users[k], quote, margin);
    }
    assert forall|i: int| #![trigger r.books[stock].asks[i]] 0 <= i < r.books[stock].asks.len() implies users.contains(r.books[stock].asks[i].user_id)
        && balance_of(r, r.books[stock].asks[i].user_id, base) is Some by {
        let j = choose|j: int| 0 <= j < b.asks.len() && r.books[stock].asks[i].user_id == b.asks[j].user_id;
        let uid = b.asks[j].user_id;
        assert(b.asks[j] == m.books[stock].asks[j]);
        assert(users.contains(uid));
        let k = choose|k: int| 0 <= k < users.len() && users[k] == uid;
        lemma_pay_trade_margin(f, bu, au, base, quote, price * q, q as int, users[k], base, margin);
    }
}

/// Matching conserves funds: for every currency, the total that a list of
/// distinct users holds is the same before and after, where the list
/// names the owner of every order in the book (such as all users with
/// balances), each owner has a balance in the currency its order pays
/// with (a credit to a user without any balances is lost), and the users'
/// balances in both currencies of the market lie far enough from the ends
/// of `i128` (`2^65` for each order in the book, and `2^65` more) that no
/// round reaches them.
pub proof fn law_match_order_conserves_holdings(
    m: EngineView,
    stock: u32,
    users: Seq<u32>,
    c: Seq<char>,
    margin: int,
)
    requires
        m.books.contains_key(stock),
        users.no_duplicates(),
        owners_ready(m, stock, users),
        users_within(m, stock, users, margin),
        0x2_0000_0000_0000_0000 * (crate::model::book_size(m, stock) + 1) <= margin <= i128::MAX,
    ensures
        total_held(after_match_order(m, stock), users, c) == total_held(m, users, c),
    decreases crate::model::book_size(m, stock),
{
    if m.books.contains_key(stock) && m.stocks.contains_key(stock) && crossed(m.books[stock]) {
        lemma_match_step_shrinks(m, stock);
        lemma_round_ready(m, stock, users, margin, c);
        law_match_order_conserves_holdings(
            after_match_step(m, stock),
            stock,
            users,
            c,
            margin - 0x2_0000_0000_0000_0000,
        );
    }
}

// ---------------------------------------------------------------------------
// Orders rest on their own side of their own market
// ---------------------------------------------------------------------------
/// Removing an id keeps the tags of a side.
proof fn lemma_without_order_tagged(s: Seq<Order>, id: u32, side: OrderSide, stock: u32)
    requires
        orders_tagged(s, side, stock),
    ensures
        orders_tagged(without_order(s, id), side, stock),
{
    lemma_without_order_from(s, id);
    assert forall|i: int| 0 <= i < without_order(s, id).len() implies #[trigger] without_order(s, id)[i].order_side
        == side && without_order(s, id)[i].stock == stock by {
        let j = choose|j: int| 0 <= j < s.len() && without_order(s, id)[i] == s[j];
    }
}

/// Replacing one book by one whose sides keep their tags keeps every tag.
proof fn lemma_with_book_tags(m: EngineView, stock: u32, b: BookView)
    requires
        tags_match(m),
        orders_tagged(b.bids, OrderSide::Buy, stock),
        orders_tagged(b.asks, OrderSide::Sell, stock),
    ensures
        tags_match(with_book(m, stock, b)),
{
    let r = with_book(m, stock, b);
    assert forall|s: u32| #[trigger] r.books.contains_key(s) implies orders_tagged(
        r.books[s].bids,
        OrderSide::Buy,
        s,
    ) && orders_tagged(r.books[s].asks, OrderSide::Sell, s) by {
        if s != stock {
            assert(m.books.contains_key(s));
        }
    }
}

/// Removing an order keeps every order on its own side of its own market.
pub proof fn law_remove_order_keeps_tags(m: EngineView, stock: u32, id: u32, side: OrderSide)
    requires
        tags_match(m),
        m.books.contains_key(stock),
    ensures
        tags_match(after_remove_order(m, stock, id, side)),
{
    let b = m.books[stock];
    lemma_without_order_tagged(b.bids, id, OrderSide::Buy, stock);
    lemma_without_order_tagged(b.asks, id, OrderSide::Sell, stock);
    lemma_with_book_tags(m, stock, with_side_orders(b, side, without_order(side_orders(b, side), id)));
}

/// Filling an order keeps every order on its own side of its own market.
proof fn lemma_fill_tags(m: EngineView, stock: u32, side: OrderSide, id: u32, quantity: u32)
    requires
        tags_match(m),
        m.books.contains_key(stock),
    ensures
        tags_match(fill_order(m, stock, side, id, quantity)),
{
    let b = m.books[stock];
    let os = side_orders(b, side);
    match order_index(os, id) {
        Some(i) => {
            let o = os[i];
            let os2 = os.update(i, Order { filled_quantity: crate::model::sat_add_u32(o.filled_quantity, quantity), ..o });
            let b2 = with_side_orders(b, side, os2);
            assert(orders_tagged(b2.bids, OrderSide::Buy, stock) && orders_tagged(b2.asks, OrderSide::Sell, stock));
            lemma_with_book_tags(m, stock, b2);
        },
        None => {},
    }
}

/// Placing an order keeps every order on its own side of its own market:
/// the new order is tagged with the side and market it joins.
pub proof fn law_add_order_keeps_tags(
    m: EngineView,
    user: u32,
    order_type: OrderType,
    side: OrderSide,
    stock: u32,
    quantity: u32,
    price: u32,
)
    requires
        tags_match(m),
    ensures
        tags_match(after_add_order(m, user, order_type, side, stock, quantity, price)),
{
    if order_accepted(m, user, side, stock, quantity, price) {
        let amount = lock_amount(side, quantity, price);
        let cur = order_currency(m, stock, side);
        let m1 = adjust_balance(m, user, cur, amount, -amount);
        crate::model::lemma_balance_steps_keep_books(m, user, cur, amount, -amount);
        let o = new_order(m, user, order_type, side, stock, quantity, price);
        if m1.books.contains_key(stock) {
            let b = m1.books[stock];
            lemma_bid_slot_exists(b.bids, price);
            lemma_ask_slot_exists(b.asks, price);
            let kb = bid_slot(b.bids, price);
            let ka = ask_slot(b.asks, price);
            assert(orders_tagged(b.bids, OrderSide::Buy, stock) && orders_tagged(b.asks, OrderSide::Sell, stock));
            if side == OrderSide::Buy {
                let nb = b.bids.insert(kb, o);
                assert forall|i: int| 0 <= i < nb.len() implies #[trigger] nb[i].order_side == OrderSide::Buy
                    && nb[i].stock == stock by {
                    if i < kb {
                        assert(nb[i] == b.bids[i]);
                    } else if i > kb {
                        assert(nb[i] == b.bids[i - 1]);
                    }
                }
                lemma_with_book_tags(m1, stock, BookView { bids: nb, asks: b.asks, last_traded_price: b.last_traded_price });
            } else {
                let na = b.asks.insert(ka, o);
                assert forall|i: int| 0 <= i < na.len() implies #[trigger] na[i].order_side == OrderSide::Sell
                    && na[i].stock == stock by {
                    if i < ka {
                        assert(na[i] == b.asks[i]);
                    } else if i > ka {
                        assert(na[i] == b.asks[i - 1]);
                    }
                }
                lemma_with_book_tags(m1, stock, BookView { bids: b.bids, asks: na, last_traded_price: b.last_traded_price });
            }
        }
    }
}

/// Settling a trade keeps every order on its own side of its own market.
pub proof fn law_settle_trade_keeps_tags(
    m: EngineView,
    price: u32,
    quantity: u32,
    stock: u32,
    bid_id: u32,
    ask_id: u32,
)
    requires
        tags_match(m),
        m.books.contains_key(stock),
    ensures
        tags_match(after_settle_trade(m, price, quantity, stock, bid_id, ask_id)),
{
    lemma_settle_parts(m, price, quantity, stock, bid_id, ask_id);
    let bid = order_of(m.books[stock].bids, bid_id);
    let ask = order_of(m.books[stock].asks, ask_id);
    let m1 = fill_order(m, stock, OrderSide::Buy, bid_id, quantity);
    lemma_fill_tags(m, stock, OrderSide::Buy, bid_id, quantity);
    crate::model::lemma_fill_shape(m, stock, OrderSide::Buy, bid_id, quantity);
    lemma_fill_tags(m1, stock, OrderSide::Sell, ask_id, quantity);
    let f = fill_both(m, stock, bid_id, ask_id, quantity);
    let p = pay_trade(f, bid.user_id, ask.user_id, m.stocks[stock].base, m.stocks[stock].quote, price * quantity, quantity as int);
    assert(tags_match(p));
    let b = p.books[stock];
    lemma_with_book_tags(p, stock, BookView { bids: b.bids, asks: b.asks, last_traded_price: Some(price) });
    let l = with_last_price(p, stock, price);
    let m8 = if filled_by(bid, quantity) {
        law_remove_order_keeps_tags(l, stock, bid_id, OrderSide::Buy);
        after_remove_order(l, stock, bid_id, OrderSide::Buy)
    } else {
        l
    };
    assert(m8.books.contains_key(stock));
    if filled_by(ask, quantity) {
        law_remove_order_keeps_tags(m8, stock, ask_id, OrderSide::Sell);
    }
}

/// Cancelling an order keeps every order on its own side of its own market.
pub proof fn law_cancel_order_keeps_tags(m: EngineView, stock: u32, id: u32, side: OrderSide)
    requires
        tags_match(m),
        m.books.contains_key(stock),
    ensures
        tags_match(after_cancel_order(m, stock, id, side)),
{
    let o = order_of(side_orders(m.books[stock], side), id);
    let release = cancel_release(o, side);
    let cur = order_currency(m, stock, side);
    crate::model::lemma_balance_steps_keep_books(m, o.user_id, cur, -release, release);
    law_remove_order_keeps_tags(adjust_balance(m, o.user_id, cur, -release, release), stock, id, side);
}

/// Matching keeps every order on its own side of its own market.
pub proof fn law_match_order_keeps_tags(m: EngineView, stock: u32)
    requires
        tags_match(m),
    ensures
        tags_match(after_match_order(m, stock)),
    decreases crate::model::book_size(m, stock),
{
    if m.books.contains_key(stock) && m.stocks.contains_key(stock) && crossed(m.books[stock]) {
        let b = m.books[stock];
        lemma_match_step_shrinks(m, stock);
        law_settle_trade_keeps_tags(
            m,
            b.asks[0].price,
            min_u32(b.bids[0].quantity, b.asks[0].quantity),
            stock,
            b.bids[0].order_id,
            b.asks[0].order_id,
        );
        law_match_order_keeps_tags(after_match_step(m, stock), stock);
    }
}

// ---------------------------------------------------------------------------
// Placing keeps balances from going below 0
// ---------------------------------------------------------------------------
/// Placing an order never takes a balance below 0: it is accepted only
/// where the amount it locks is available.
pub proof fn law_add_order_keeps_balances_nonneg(
    m: EngineView,
    user: u32,
    order_type: OrderType,
    side: OrderSide,
    stock: u32,
    quantity: u32,
    price: u32,
)
    requires
        balances_nonneg(m),
    ensures
        balances_nonneg(after_add_order(m, user, order_type, side, stock, quantity, price)),
{
    if order_accepted(m, user, side, stock, quantity, price) {
        let amount = lock_amount(side, quantity, price);
        let cur = order_currency(m, stock, side);
        vstd::arithmetic::mul::lemma_mul_nonnegative(quantity as int, price as int);
        let bals = m.balances[user];
        let i = currency_index(bals, cur)->0;
        let b = bals[i];
        let b1 = BalanceView {
            currency: b.currency,
            locked: clamp(b.locked + amount),
            available: clamp(b.available - amount),
        };
        assert(b.locked >= 0 && b.available >= amount);
        let m1 = adjust_balance(m, user, cur, amount, -amount);
        assert(m1.balances == m.balances.insert(user, bals.update(i, b1)));
        let r = after_add_order(m, user, order_type, side, stock, quantity, price);
        let o = new_order(m, user, order_type, side, stock, quantity, price);
        let m2 = match side {
            OrderSide::Buy => after_add_bid(m1, stock, o),
            OrderSide::Sell => after_add_ask(m1, stock, o),
        };
        assert(m2.balances == m1.balances);
        assert(r.balances == m1.balances);
        assert forall|u: u32, j: int| #![trigger r.balances[u][j]]
            r.balances.contains_key(u) && 0 <= j < r.balances[u].len() implies r.balances[u][j].locked >= 0
            && r.balances[u][j].available >= 0 by {
            if u != user {
                assert(m.balances[u][j] == r.balances[u][j]);
            } else if j != i {
                assert(m.balances[u][j] == r.balances[u][j]);
            }
        }
    }
}

// ---------------------------------------------------------------------------
// What each operation does, stated from its inputs
// ---------------------------------------------------------------------------
/// Removing an id leaves no order with it.
proof fn lemma_without_order_lacks(s: Seq<Order>, id: u32)
    ensures
        !has_id(without_order(s, id), id),
    decreases s.len(),
{
    reveal(Seq::filter);
    if s.len() > 0 {
        let d = s.drop_last();
        lemma_without_order_lacks(d, id);
        let w = without_order(s, id);
        let f = without_order(d, id);
        if has_id(w, id) {
            let j = choose|j: int| 0 <= j < w.len() && w[j].order_id == id;
            if j < f.len() {
                assert(f[j] == w[j]);
                assert(has_id(f, id));
            }
        }
    }
}

/// Cancelling order `id` on `side` of `stock` takes every order with that
/// id off that side, partly filled or not, and leaves the other side and
/// every other book as they were. Its owner's balance in the currency of
/// the side (quote for a bid, base for an ask) gets back what the order
/// still has locked: for a bid the unfilled quantity times the price, for
/// an ask the unfilled quantity; it moves from locked to available.
pub proof fn law_cancel_order_result(m: EngineView, stock: u32, id: u32, side: OrderSide)
    requires
        m.books.contains_key(stock),
        order_index(side_orders(m.books[stock], side), id) is Some,
    ensures
        ({
            let r = after_cancel_order(m, stock, id, side);
            let b = m.books[stock];
            let o = order_of(side_orders(b, side), id);
            let cur = if side == OrderSide::Buy { m.stocks[stock].quote } else { m.stocks[stock].base };
            let release = if side == OrderSide::Buy {
                (o.quantity - o.filled_quantity) * o.price
            } else {
                o.quantity - o.filled_quantity
            };
            &&& !has_id(side_orders(r.books[stock], side), id)
            &&& side == OrderSide::Buy ==> r.books[stock].asks == b.asks
            &&& side == OrderSide::Sell ==> r.books[stock].bids == b.bids
            &&& r.books.dom() == m.books.dom()
            &&& forall|t: u32| t != stock ==> r.books[t] == m.books[t]
            &&& r.stocks == m.stocks
            &&& r.order_number == m.order_number
            &&& balance_of(m, o.user_id, cur) is Some ==> balance_of(r, o.user_id, cur) == Some(
                BalanceView {
                    currency: balance_of(m, o.user_id, cur)->0.currency,
                    locked: clamp(balance_of(m, o.user_id, cur)->0.locked - release),
                    available: clamp(balance_of(m, o.user_id, cur)->0.available + release),
                },
            )
        }),
{
    let b = m.books[stock];
    let o = order_of(side_orders(b, side), id);
    let cur = order_currency(m, stock, side);
    let release = cancel_release(o, side);
    let m1 = adjust_balance(m, o.user_id, cur, -release, release);
    crate::model::lemma_balance_steps_keep_books(m, o.user_id, cur, -release, release);
    lemma_adjust_balance_of(m, o.user_id, cur, -release, release, o.user_id, cur);
    lemma_without_order_lacks(side_orders(b, side), id);
    let r = after_cancel_order(m, stock, id, side);
    assert(r.books.dom() =~= m.books.dom());
    assert(r.balances == m1.balances);
    assert(balance_of(r, o.user_id, cur) == balance_of(m1, o.user_id, cur));
}

/// A round of matching on a crossed book is one trade between the best
/// bid and the best ask, at the best ask's price, of a quantity that is
/// the smaller of the two orders' quantities: at most each of them, and
/// equal to one of them. Matching runs such rounds while the book is
/// crossed, and changes nothing once it is not.
pub proof fn law_match_round(m: EngineView, stock: u32)
    requires
        m.books.contains_key(stock),
    ensures
        m.stocks.contains_key(stock) && crossed(m.books[stock]) ==> exists|q: u32|
            {
                &&& q <= m.books[stock].bids[0].quantity
                &&& q <= m.books[stock].asks[0].quantity
                &&& (q == m.books[stock].bids[0].quantity || q == m.books[stock].asks[0].quantity)
                &&& #[trigger] after_match_step(m, stock) == after_settle_trade(
                    m,
                    m.books[stock].asks[0].price,
                    q,
                    stock,
                    m.books[stock].bids[0].order_id,
                    m.books[stock].asks[0].order_id,
                )
            },
        m.stocks.contains_key(stock) && crossed(m.books[stock]) ==> after_match_order(m, stock)
            == after_match_order(after_match_step(m, stock), stock),
        !(m.stocks.contains_key(stock) && crossed(m.books[stock])) ==> after_match_order(m, stock) == m,
{
    if m.stocks.contains_key(stock) && crossed(m.books[stock]) {
        let b = m.books[stock];
        let q = min_u32(b.bids[0].quantity, b.asks[0].quantity);
        assert(after_match_step(m, stock) == after_settle_trade(
            m,
            b.asks[0].price,
            q,
            stock,
            b.bids[0].order_id,
            b.asks[0].order_id,
        ));
    }
}

/// Settling a trade of `quantity` at `price` between bid `bid_id` and ask
/// `ask_id` of `stock`: the last traded price of the book is `price`; each
/// order that the trade completes (its filled quantity plus `quantity`
/// reaches its quantity) leaves its side, and one it does not complete
/// stays where it was with `quantity` more filled (stopping at
/// `u32::MAX`); no other book, market or id changes. Where the buyer and
/// the seller are different users, the market's two currencies differ,
/// and both parties hold balances in both, away from the ends of `i128`:
/// the buyer's locked quote falls by `price * quantity` and its available
/// base rises by `quantity`; the seller's locked base falls by `quantity`
/// and its available quote rises by `price * quantity`; nothing else of
/// those balances changes. A party with balances but none in the currency
/// it receives gets a new balance holding what it receives.
pub proof fn law_settle_trade_result(
    m: EngineView,
    price: u32,
    quantity: u32,
    stock: u32,
    bid_id: u32,
    ask_id: u32,
)
    requires
        m.stocks.contains_key(stock),
        m.books.contains_key(stock),
        order_index(m.books[stock].bids, bid_id) is Some,
        order_index(m.books[stock].asks, ask_id) is Some,
    ensures
        ({
            let r = after_settle_trade(m, price, quantity, stock, bid_id, ask_id);
            let b = m.books[stock];
            let bi = order_index(b.bids, bid_id)->0;
            let ai = order_index(b.asks, ask_id)->0;
            let bid = b.bids[bi];
            let ask = b.asks[ai];
            let bid_filled = if bid.filled_quantity + quantity > u32::MAX {
                u32::MAX
            } else {
                (bid.filled_quantity + quantity) as u32
            };
            let ask_filled = if ask.filled_quantity + quantity > u32::MAX {
                u32::MAX
            } else {
                (ask.filled_quantity + quantity) as u32
            };
            let base = m.stocks[stock].base;
            let quote = m.stocks[stock].quote;
            let cost = price * quantity;
            &&& r.books[stock].last_traded_price == Some(price)
            &&& r.stocks == m.stocks
            &&& r.order_number == m.order_number
            &&& r.books.dom() == m.books.dom()
            &&& forall|t: u32| t != stock ==> r.books[t] == m.books[t]
            &&& bid.filled_quantity + quantity >= bid.quantity ==> !has_id(r.books[stock].bids, bid_id)
            &&& bid.filled_quantity + quantity < bid.quantity ==> r.books[stock].bids == b.bids.update(
                bi,
                Order { filled_quantity: bid_filled, ..bid },
            )
            &&& ask.filled_quantity + quantity >= ask.quantity ==> !has_id(r.books[stock].asks, ask_id)
            &&& ask.filled_quantity + quantity < ask.quantity ==> r.books[stock].asks == b.asks.update(
                ai,
                Order { filled_quantity: ask_filled, ..ask },
            )
            &&& bid.user_id != ask.user_id && base != quote && balance_of(m, bid.user_id, base) is None
                && m.balances.contains_key(bid.user_id) ==> balance_of(r, bid.user_id, base) == Some(
                BalanceView { currency: base, locked: 0, available: quantity as i128 },
            )
            &&& bid.user_id != ask.user_id && base != quote && balance_of(m, ask.user_id, quote) is None
                && m.balances.contains_key(ask.user_id) ==> balance_of(r, ask.user_id, quote) == Some(
                BalanceView { currency: quote, locked: 0, available: cost as i128 },
            )
            &&& ({
                &&& bid.user_id != ask.user_id
                &&& base != quote
                &&& balance_of(m, bid.user_id, quote) is Some
                &&& balance_of(m, bid.user_id, base) is Some
                &&& balance_of(m, ask.user_id, base) is Some
                &&& balance_of(m, ask.user_id, quote) is Some
                &&& within_range(m, bid.user_id, base)
                &&& within_range(m, bid.user_id, quote)
                &&& within_range(m, ask.user_id, base)
                &&& within_range(m, ask.user_id, quote)
            }) ==> {
                let bq = balance_of(m, bid.user_id, quote)->0;
                let bb = balance_of(m, bid.user_id, base)->0;
                let ab = balance_of(m, ask.user_id, base)->0;
                let aq = balance_of(m, ask.user_id, quote)->0;
                &&& balance_of(r, bid.user_id, quote) == Some(
                    BalanceView { currency: bq.currency, locked: (bq.locked - cost) as i128, available: bq.available },
                )
                &&& balance_of(r, bid.user_id, base) == Some(
                    BalanceView { currency: bb.currency, locked: bb.locked, available: (bb.available + quantity) as i128 },
                )
                &&& balance_of(r, ask.user_id, base) == Some(
                    BalanceView { currency: ab.currency, locked: (ab.locked - quantity) as i128, available: ab.available },
                )
                &&& balance_of(r, ask.user_id, quote) == Some(
                    BalanceView { currency: aq.currency, locked: aq.locked, available: (aq.available + cost) as i128 },
                )
            }
        }),
{
    lemma_settle_parts(m, price, quantity, stock, bid_id, ask_id);
    let b = m.books[stock];
    let bi = order_index(b.bids, bid_id)->0;
    let ai = order_index(b.asks, ask_id)->0;
    let bid = order_of(b.bids, bid_id);
    let ask = order_of(b.asks, ask_id);
    let base = m.stocks[stock].base;
    let quote = m.stocks[stock].quote;
    let cost = price * quantity;
    let q = quantity as int;
    proof_cost_bound(price, quantity);
    let m1 = fill_order(m, stock, OrderSide::Buy, bid_id, quantity);
    crate::model::lemma_fill_shape(m, stock, OrderSide::Buy, bid_id, quantity);
    let f = fill_both(m, stock, bid_id, ask_id, quantity);
    assert(f.books[stock].bids == b.bids.update(bi, Order { filled_quantity: sat_add_u32(bid.filled_quantity, quantity), ..bid }));
    assert(m1.books[stock].asks == b.asks);
    assert(f.books[stock].asks == b.asks.update(ai, Order { filled_quantity: sat_add_u32(ask.filled_quantity, quantity), ..ask }));
    let p = pay_trade(f, bid.user_id, ask.user_id, base, quote, cost, q);
    let l = with_last_price(p, stock, price);
    assert(l.books[stock].last_traded_price == Some(price));
    let m8 = if filled_by(bid, quantity) {
        after_remove_order(l, stock, bid_id, OrderSide::Buy)
    } else {
        l
    };
    lemma_without_order_lacks(l.books[stock].bids, bid_id);
    lemma_without_order_lacks(m8.books[stock].asks, ask_id);
    assert(m8.books[stock].asks == l.books[stock].asks);
    assert(m8.books[stock].last_traded_price == Some(price));
    assert(m8.books.dom() =~= m.books.dom());
    let r = after_settle_trade(m, price, quantity, stock, bid_id, ask_id);
    assert(r.books.dom() =~= m.books.dom());
    assert(r.balances == p.balances);
    assert(f.balances == m.balances);
    // Payments, one balance at a time.
    let bu = bid.user_id;
    let au = ask.user_id;
    let m3 = adjust_balance(f, bu, quote, -cost, 0);
    let m4 = credit_or_open(m3, bu, base, q);
    let m5 = adjust_balance(m4, au, base, -q, 0);
    lemma_adjust_balance_of(f, bu, quote, -cost, 0, bu, quote);
    lemma_credit_balance_of(m3, bu, base, q, bu, quote);
    lemma_adjust_balance_of(m4, au, base, -q, 0, bu, quote);
    lemma_credit_balance_of(m5, au, quote, cost, bu, quote);
    lemma_adjust_balance_of(f, bu, quote, -cost, 0, bu, base);
    lemma_credit_balance_of(m3, bu, base, q, bu, base);
    lemma_adjust_balance_of(m4, au, base, -q, 0, bu, base);
    lemma_credit_balance_of(m5, au, quote, cost, bu, base);
    lemma_adjust_balance_of(f, bu, quote, -cost, 0, au, base);
    lemma_credit_balance_of(m3, bu, base, q, au, base);
    lemma_adjust_balance_of(m4, au, base, -q, 0, au, base);
    lemma_credit_balance_of(m5, au, quote, cost, au, base);
    lemma_adjust_balance_of(f, bu, quote, -cost, 0, au, quote);
    lemma_credit_balance_of(m3, bu, base, q, au, quote);
    lemma_adjust_balance_of(m4, au, base, -q, 0, au, quote);
    lemma_credit_balance_of(m5, au, quote, cost, au, quote);
    assert forall|uu: u32, cc: Seq<char>| #![trigger balance_of(r, uu, cc)]
        balance_of(r, uu, cc) == balance_of(p, uu, cc) by {
    }
    assert forall|uu: u32, cc: Seq<char>| #![trigger balance_of(f, uu, cc)]
        balance_of(f, uu, cc) == balance_of(m, uu, cc) by {
    }
}

/// Placing an order: where the user holds a balance in the currency the
/// order locks (quote for a bid, base for an ask) with at least the amount
/// it locks available (quantity times price for a bid, the quantity for
/// an ask), that amount moves from available to locked, the order rests
/// on its side of the market's book with the next id, the given fields
/// and nothing filled (after every order with a better price, before the
/// first without: a bid after the higher bids, an ask after the lower
/// asks), the other side stays as it was, and the next id is one more.
/// Otherwise nothing changes at all.
pub proof fn law_add_order_result(
    m: EngineView,
    user: u32,
    order_type: OrderType,
    side: OrderSide,
    stock: u32,
    quantity: u32,
    price: u32,
)
    requires
        m.stocks.contains_key(stock),
        m.books.contains_key(stock),
        m.order_number < u32::MAX,
    ensures
        ({
            let r = after_add_order(m, user, order_type, side, stock, quantity, price);
            let cur = if side == OrderSide::Buy { m.stocks[stock].quote } else { m.stocks[stock].base };
            let amount = if side == OrderSide::Buy { quantity * price } else { quantity as int };
            let b = m.books[stock];
            let placed = Order {
                order_id: m.order_number,
                user_id: user,
                quantity,
                price,
                stock,
                filled_quantity: 0,
                order_type,
                order_side: side,
            };
            if balance_of(m, user, cur) is Some && balance_of(m, user, cur)->0.available >= amount {
                let bal = balance_of(m, user, cur)->0;
                &&& r.order_number == m.order_number + 1
                &&& balance_of(r, user, cur) == Some(
                    BalanceView {
                        currency: bal.currency,
                        locked: clamp(bal.locked + amount),
                        available: (bal.available - amount) as i128,
                    },
                )
                &&& side_orders(r.books[stock], side).len() == side_orders(b, side).len() + 1
                &&& exists|k: int|
                    {
                        &&& 0 <= k <= side_orders(b, side).len()
                        &&& #[trigger] side_orders(r.books[stock], side) == side_orders(b, side).insert(k, placed)
                        &&& forall|j: int| 0 <= j < k ==> if side == OrderSide::Buy {
                            b.bids[j].price > price
                        } else {
                            b.asks[j].price < price
                        }
                        &&& k < side_orders(b, side).len() ==> if side == OrderSide::Buy {
                            b.bids[k].price <= price
                        } else {
                            b.asks[k].price >= price
                        }
                    }
                &&& side == OrderSide::Buy ==> r.books[stock].asks == b.asks
                &&& side == OrderSide::Sell ==> r.books[stock].bids == b.bids
                &&& r.books.dom() == m.books.dom()
                &&& forall|t: u32| t != stock ==> r.books[t] == m.books[t]
                &&& r.stocks == m.stocks
            } else {
                r == m
            }
        }),
{
    let cur = order_currency(m, stock, side);
    let amount = lock_amount(side, quantity, price);
    vstd::arithmetic::mul::lemma_mul_nonnegative(quantity as int, price as int);
    let r = after_add_order(m, user, order_type, side, stock, quantity, price);
    if order_accepted(m, user, side, stock, quantity, price) {
        let m1 = adjust_balance(m, user, cur, amount, -amount);
        crate::model::lemma_balance_steps_keep_books(m, user, cur, amount, -amount);
        lemma_adjust_balance_of(m, user, cur, amount, -amount, user, cur);
        let b = m.books[stock];
        let o = new_order(m, user, order_type, side, stock, quantity, price);
        let k = match side {
            OrderSide::Buy => bid_slot(b.bids, price),
            OrderSide::Sell => ask_slot(b.asks, price),
        };
        lemma_bid_slot_exists(b.bids, price);
        lemma_ask_slot_exists(b.asks, price);
        assert(side_orders(r.books[stock], side) == side_orders(b, side).insert(k, o));
        assert(r.balances == m1.balances);
        assert(balance_of(r, user, cur) == balance_of(m1, user, cur));
        assert(r.books.dom() =~= m.books.dom());
    }
}

/// Every order of a side without the removed id is still there.
proof fn lemma_without_order_keeps(s: Seq<Order>, id: u32)
    ensures
        forall|i: int| 0 <= i < s.len() && s[i].order_id != id ==> #[trigger] without_order(s, id).contains(s[i]),
    decreases s.len(),
{
    reveal(Seq::filter);
    if s.len() > 0 {
        let d = s.drop_last();
        lemma_without_order_keeps(d, id);
        let w = without_order(s, id);
        let f = without_order(d, id);
        assert forall|i: int| 0 <= i < s.len() && s[i].order_id != id implies #[trigger] w.contains(s[i]) by {
            if i < s.len() - 1 {
                assert(d[i] == s[i]);
                assert(f.contains(d[i]));
                let j = choose|j: int| 0 <= j < f.len() && f[j] == d[i];
                assert(w[j] == s[i]);
            } else {
                assert(w[w.len() - 1] == s[i]);
            }
        }
    }
}

/// Removing order `id` from `side` of `stock` takes every order with that
/// id off that side and keeps every other order of it; nothing new comes
/// in, and the other side, the other books, the balances, the markets and
/// the next id stay as they were.
pub proof fn law_remove_order_result(m: EngineView, stock: u32, id: u32, side: OrderSide)
    requires
        m.books.contains_key(stock),
    ensures
        ({
            let r = after_remove_order(m, stock, id, side);
            let os = side_orders(m.books[stock], side);
            let rs = side_orders(r.books[stock], side);
            &&& !has_id(rs, id)
            &&& forall|i: int| 0 <= i < os.len() && os[i].order_id != id ==> #[trigger] rs.contains(os[i])
            &&& forall|i: int| 0 <= i < rs.len() ==> #[trigger] os.contains(rs[i])
            &&& side == OrderSide::Buy ==> r.books[stock].asks == m.books[stock].asks
            &&& side == OrderSide::Sell ==> r.books[stock].bids == m.books[stock].bids
            &&& r.books[stock].last_traded_price == m.books[stock].last_traded_price
            &&& r.books.dom() == m.books.dom()
            &&& forall|t: u32| t != stock ==> r.books[t] == m.books[t]
            &&& r.balances == m.balances
            &&& r.stocks == m.stocks
            &&& r.order_number == m.order_number
        }),
{
    let os = side_orders(m.books[stock], side);
    lemma_without_order_lacks(os, id);
    lemma_without_order_keeps(os, id);
    lemma_without_order_from(os, id);
    let r = after_remove_order(m, stock, id, side);
    let rs = side_orders(r.books[stock], side);
    assert forall|i: int| 0 <= i < rs.len() implies #[trigger] os.contains(rs[i]) by {
        let j = choose|j: int| 0 <= j < os.len() && without_order(os, id)[i] == os[j];
    }
    assert(r.books.dom() =~= m.books.dom());
}

} // verus!
