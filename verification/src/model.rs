//! The mathematical model of the engine: its state as maps and sequences, and
//! what each operation makes of it.
use vstd::prelude::*;
use crate::schemas::{BalanceView, BookView, Order, OrderSide, OrderType, StockView};

verus! {

/// The value of an engine: the next order id, the markets, the books and
/// the balances of each user, all keyed by id.
#[verifier::ext_equal]
pub struct EngineView {
    pub order_number: u32,
    pub stocks: Map<u32, StockView>,
    pub books: Map<u32, BookView>,
    pub balances: Map<u32, Seq<BalanceView>>,
}

// ---------------------------------------------------------------------------
// Arithmetic
// ---------------------------------------------------------------------------
/// `x` brought into the range of `i128`: balances stop at its ends.
pub open spec fn clamp(x: int) -> i128 {
    if x < i128::MIN {
        i128::MIN
    } else if x > i128::MAX {
        i128::MAX
    } else {
        x as i128
    }
}

/// `a + b`, or `u32::MAX` where the sum does not fit.
pub open spec fn sat_add_u32(a: u32, b: u32) -> u32 {
    if a + b > u32::MAX {
        u32::MAX
    } else {
        (a + b) as u32
    }
}

/// The smaller of two quantities.
pub open spec fn min_u32(a: u32, b: u32) -> u32 {
    if a <= b {
        a
    } else {
        b
    }
}

// ---------------------------------------------------------------------------
// Finding records
// ---------------------------------------------------------------------------
/// `i` is the first position of a balance in currency `cur`.
pub open spec fn is_first_currency(bals: Seq<BalanceView>, cur: Seq<char>, i: int) -> bool {
    &&& 0 <= i < bals.len()
    &&& bals[i].currency == cur
    &&& forall|j: int| 0 <= j < i ==> #[trigger] bals[j].currency != cur
}

/// The first position of a balance in currency `cur`, if there is one.
pub open spec fn currency_index(bals: Seq<BalanceView>, cur: Seq<char>) -> Option<int> {
    if exists|i: int| is_first_currency(bals, cur, i) {
        Some(choose|i: int| is_first_currency(bals, cur, i))
    } else {
        None
    }
}

/// `i` is the first position of an order with id `id`.
pub open spec fn is_first_order(orders: Seq<Order>, id: u32, i: int) -> bool {
    &&& 0 <= i < orders.len()
    &&& orders[i].order_id == id
    &&& forall|j: int| 0 <= j < i ==> #[trigger] orders[j].order_id != id
}

/// The first position of an order with id `id`, if there is one.
pub open spec fn order_index(orders: Seq<Order>, id: u32) -> Option<int> {
    if exists|i: int| is_first_order(orders, id, i) {
        Some(choose|i: int| is_first_order(orders, id, i))
    } else {
        None
    }
}

/// The first order with id `id` (meaningful where there is one).
pub open spec fn order_of(orders: Seq<Order>, id: u32) -> Order {
    orders[order_index(orders, id)->0]
}

// ---------------------------------------------------------------------------
// Price order
// ---------------------------------------------------------------------------
/// Bids run from the highest price to the lowest.
pub open spec fn bids_sorted(bids: Seq<Order>) -> bool {
    forall|i: int, j: int| 0 <= i <= j < bids.len() ==> bids[i].price >= bids[j].price
}

/// Asks run from the lowest price to the highest.
pub open spec fn asks_sorted(asks: Seq<Order>) -> bool {
    forall|i: int, j: int| 0 <= i <= j < asks.len() ==> asks[i].price <= asks[j].price
}

/// Every book of `m` is in price order on both sides.
pub open spec fn books_sorted(m: EngineView) -> bool {
    forall|s: u32|
        #[trigger] m.books.contains_key(s) ==> bids_sorted(m.books[s].bids) && asks_sorted(
            m.books[s].asks,
        )
}

/// `k` is where a bid at `price` goes: after every bid with a higher
/// price, before the first one without.
pub open spec fn is_bid_slot(bids: Seq<Order>, price: u32, k: int) -> bool {
    &&& 0 <= k <= bids.len()
    &&& forall|j: int| 0 <= j < k ==> #[trigger] bids[j].price > price
    &&& k < bids.len() ==> bids[k].price <= price
}

/// Where a bid at `price` is inserted.
pub open spec fn bid_slot(bids: Seq<Order>, price: u32) -> int {
    choose|k: int| is_bid_slot(bids, price, k)
}

/// `k` is where an ask at `price` goes: after every ask with a lower
/// price, before the first one without.
pub open spec fn is_ask_slot(asks: Seq<Order>, price: u32, k: int) -> bool {
    &&& 0 <= k <= asks.len()
    &&& forall|j: int| 0 <= j < k ==> #[trigger] asks[j].price < price
    &&& k < asks.len() ==> asks[k].price >= price
}

/// Where an ask at `price` is inserted.
pub open spec fn ask_slot(asks: Seq<Order>, price: u32) -> int {
    choose|k: int| is_ask_slot(asks, price, k)
}

// ---------------------------------------------------------------------------
// Order ids
// ---------------------------------------------------------------------------
/// Every order has an id below `n`.
pub open spec fn orders_below(orders: Seq<Order>, n: u32) -> bool {
    forall|i: int| 0 <= i < orders.len() ==> #[trigger] orders[i].order_id < n
}

/// Every order resting in a book of `m` has an id below the next id.
pub open spec fn ids_below(m: EngineView) -> bool {
    forall|s: u32|
        #[trigger] m.books.contains_key(s) ==> orders_below(m.books[s].bids, m.order_number)
            && orders_below(m.books[s].asks, m.order_number)
}

/// No two orders of `s` share an id.
pub open spec fn ids_distinct(s: Seq<Order>) -> bool {
    forall|i: int, j: int| 0 <= i < j < s.len() ==> #[trigger] s[i].order_id != #[trigger] s[j].order_id
}

/// No order of `a` shares an id with an order of `b`.
pub open spec fn ids_apart(a: Seq<Order>, b: Seq<Order>) -> bool {
    forall|i: int, j: int|
        0 <= i < a.len() && 0 <= j < b.len() ==> #[trigger] a[i].order_id != #[trigger] b[j].order_id
}

/// Every order resting in the books of `m` has an id of its own.
pub open spec fn ids_unique(m: EngineView) -> bool {
    &&& forall|s: u32|
        #[trigger] m.books.contains_key(s) ==> {
            &&& ids_distinct(m.books[s].bids)
            &&& ids_distinct(m.books[s].asks)
            &&& ids_apart(m.books[s].bids, m.books[s].asks)
        }
    &&& forall|s: u32, t: u32|
        #[trigger] m.books.contains_key(s) && #[trigger] m.books.contains_key(t) && s != t ==> {
            &&& ids_apart(m.books[s].bids, m.books[t].bids)
            &&& ids_apart(m.books[s].bids, m.books[t].asks)
            &&& ids_apart(m.books[s].asks, m.books[t].asks)
        }
}

/// Every order of `os` is on `side` of market `stock`.
pub open spec fn orders_tagged(os: Seq<Order>, side: OrderSide, stock: u32) -> bool {
    forall|i: int| 0 <= i < os.len() ==> #[trigger] os[i].order_side == side && os[i].stock == stock
}

/// Every bid in the book of a market is a buy order of that market, and
/// every ask a sell order of it.
pub open spec fn tags_match(m: EngineView) -> bool {
    forall|s: u32|
        #[trigger] m.books.contains_key(s) ==> orders_tagged(m.books[s].bids, OrderSide::Buy, s)
            && orders_tagged(m.books[s].asks, OrderSide::Sell, s)
}

/// No balance of any user is below 0, locked or available.
pub open spec fn balances_nonneg(m: EngineView) -> bool {
    forall|u: u32, j: int|
        #![trigger m.balances[u][j]]
        m.balances.contains_key(u) && 0 <= j < m.balances[u].len() ==> m.balances[u][j].locked >= 0
            && m.balances[u][j].available >= 0
}

// ---------------------------------------------------------------------------
// Pieces of state
// ---------------------------------------------------------------------------
/// The orders of one side of a book.
pub open spec fn side_orders(b: BookView, side: OrderSide) -> Seq<Order> {
    match side {
        OrderSide::Buy => b.bids,
        OrderSide::Sell => b.asks,
    }
}

/// `b` with the orders of one side replaced.
pub open spec fn with_side_orders(b: BookView, side: OrderSide, orders: Seq<Order>) -> BookView {
    match side {
        OrderSide::Buy => BookView { bids: orders, asks: b.asks, last_traded_price: b.last_traded_price },
        OrderSide::Sell => BookView { bids: b.bids, asks: orders, last_traded_price: b.last_traded_price },
    }
}

/// `m` with the book of `stock` replaced.
pub open spec fn with_book(m: EngineView, stock: u32, b: BookView) -> EngineView {
    EngineView {
        order_number: m.order_number,
        stocks: m.stocks,
        books: m.books.insert(stock, b),
        balances: m.balances,
    }
}

/// `m` with the balances of `user` replaced.
pub open spec fn with_balances(m: EngineView, user: u32, bals: Seq<BalanceView>) -> EngineView {
    EngineView {
        order_number: m.order_number,
        stocks: m.stocks,
        books: m.books,
        balances: m.balances.insert(user, bals),
    }
}

/// The currency that an order on `side` of market `stock` locks: the quote
/// currency for a bid, the base currency for an ask.
pub open spec fn order_currency(m: EngineView, stock: u32, side: OrderSide) -> Seq<char> {
    match side {
        OrderSide::Buy => m.stocks[stock].quote,
        OrderSide::Sell => m.stocks[stock].base,
    }
}

/// The balance of `user` in `cur` that the engine reads and writes: the
/// first one in that currency.
pub open spec fn balance_of(m: EngineView, user: u32, cur: Seq<char>) -> Option<BalanceView> {
    if m.balances.contains_key(user) {
        match currency_index(m.balances[user], cur) {
            Some(i) => Some(m.balances[user][i]),
            None => None,
        }
    } else {
        None
    }
}

// ---------------------------------------------------------------------------
// Steps
// ---------------------------------------------------------------------------
/// The balance of `user` in `cur`, if there is one, moved by `dlocked` and
/// `davailable` (each brought into range).
pub open spec fn adjust_balance(
    m: EngineView,
    user: u32,
    cur: Seq<char>,
    dlocked: int,
    davailable: int,
) -> EngineView {
    if m.balances.contains_key(user) {
        match currency_index(m.balances[user], cur) {
            Some(i) => {
                let b = m.balances[user][i];
                with_balances(
                    m,
                    user,
                    m.balances[user].update(
                        i,
                        BalanceView {
                            currency: b.currency,
                            locked: clamp(b.locked + dlocked),
                            available: clamp(b.available + davailable),
                        },
                    ),
                )
            },
            None => m,
        }
    } else {
        m
    }
}

/// `amount` made available to `user` in `cur`: added to the balance in
/// that currency, or, where the user has none but has balances, in a new
/// one; lost where the user has no balances at all.
pub open spec fn credit_or_open(m: EngineView, user: u32, cur: Seq<char>, amount: int) -> EngineView {
    if balance_of(m, user, cur) is Some {
        adjust_balance(m, user, cur, 0, amount)
    } else if m.balances.contains_key(user) {
        with_balances(
            m,
            user,
            m.balances[user].push(BalanceView { currency: cur, locked: 0, available: clamp(amount) }),
        )
    } else {
        m
    }
}

/// `quantity` more of the first order `id` on `side` of `stock` filled.
pub open spec fn fill_order(
    m: EngineView,
    stock: u32,
    side: OrderSide,
    id: u32,
    quantity: u32,
) -> EngineView {
    let b = m.books[stock];
    let os = side_orders(b, side);
    match order_index(os, id) {
        Some(i) => {
            let o = os[i];
            with_book(
                m,
                stock,
                with_side_orders(
                    b,
                    side,
                    os.update(i, Order { filled_quantity: sat_add_u32(o.filled_quantity, quantity), ..o }),
                ),
            )
        },
        None => m,
    }
}

/// The orders without any of id `id`, in their order.
pub open spec fn without_order(orders: Seq<Order>, id: u32) -> Seq<Order> {
    orders.filter(|o: Order| o.order_id != id)
}

/// `m` with the last trade of `stock` at `price`.
pub open spec fn with_last_price(m: EngineView, stock: u32, price: u32) -> EngineView {
    if m.books.contains_key(stock) {
        let b = m.books[stock];
        with_book(m, stock, BookView { bids: b.bids, asks: b.asks, last_traded_price: Some(price) })
    } else {
        m
    }
}

// ---------------------------------------------------------------------------
// Operations
// ---------------------------------------------------------------------------
/// `order` put among the bids of `stock` at its price slot; dropped where
/// the market has no book.
pub open spec fn after_add_bid(m: EngineView, stock: u32, order: Order) -> EngineView {
    if m.books.contains_key(stock) {
        let b = m.books[stock];
        with_book(
            m,
            stock,
            BookView {
                bids: b.bids.insert(bid_slot(b.bids, order.price), order),
                asks: b.asks,
                last_traded_price: b.last_traded_price,
            },
        )
    } else {
        m
    }
}

/// `order` put among the asks of `stock` at its price slot; dropped where
/// the market has no book.
pub open spec fn after_add_ask(m: EngineView, stock: u32, order: Order) -> EngineView {
    if m.books.contains_key(stock) {
        let b = m.books[stock];
        with_book(
            m,
            stock,
            BookView {
                bids: b.bids,
                asks: b.asks.insert(ask_slot(b.asks, order.price), order),
                last_traded_price: b.last_traded_price,
            },
        )
    } else {
        m
    }
}

/// What an order locks: the cost `quantity * price` for a bid, the quantity
/// for an ask.
pub open spec fn lock_amount(side: OrderSide, quantity: u32, price: u32) -> int {
    match side {
        OrderSide::Buy => quantity * price,
        OrderSide::Sell => quantity as int,
    }
}

/// An order is accepted: the user has a balance in the currency it locks,
/// with at least the amount it locks available.
pub open spec fn order_accepted(
    m: EngineView,
    user: u32,
    side: OrderSide,
    stock: u32,
    quantity: u32,
    price: u32,
) -> bool {
    match balance_of(m, user, order_currency(m, stock, side)) {
        Some(b) => b.available >= lock_amount(side, quantity, price),
        None => false,
    }
}

/// The order that `add_order` places, with the next id.
pub open spec fn new_order(
    m: EngineView,
    user: u32,
    order_type: OrderType,
    side: OrderSide,
    stock: u32,
    quantity: u32,
    price: u32,
) -> Order {
    Order {
        order_id: m.order_number,
        user_id: user,
        quantity,
        price,
        stock,
        filled_quantity: 0,
        order_type,
        order_side: side,
    }
}

/// Placing an order: where it is accepted, its amount moves from available
/// to locked, the order rests in its book, and the next id is one more;
/// otherwise nothing changes.
pub open spec fn after_add_order(
    m: EngineView,
    user: u32,
    order_type: OrderType,
    side: OrderSide,
    stock: u32,
    quantity: u32,
    price: u32,
) -> EngineView {
    if order_accepted(m, user, side, stock, quantity, price) {
        let amount = lock_amount(side, quantity, price);
        let m1 = adjust_balance(m, user, order_currency(m, stock, side), amount, -amount);
        let order = new_order(m, user, order_type, side, stock, quantity, price);
        let m2 = match side {
            OrderSide::Buy => after_add_bid(m1, stock, order),
            OrderSide::Sell => after_add_ask(m1, stock, order),
        };
        EngineView {
            order_number: (m.order_number + 1) as u32,
            stocks: m2.stocks,
            books: m2.books,
            balances: m2.balances,
        }
    } else {
        m
    }
}

/// Removing every order `id` from `side` of the book of `stock`.
pub open spec fn after_remove_order(m: EngineView, stock: u32, id: u32, side: OrderSide) -> EngineView {
    let b = m.books[stock];
    with_book(m, stock, with_side_orders(b, side, without_order(side_orders(b, side), id)))
}

/// Both orders of a trade filled by `quantity` more.
pub open spec fn fill_both(m: EngineView, stock: u32, bid_id: u32, ask_id: u32, quantity: u32) -> EngineView {
    fill_order(fill_order(m, stock, OrderSide::Buy, bid_id, quantity), stock, OrderSide::Sell, ask_id, quantity)
}

/// The payments of a trade of `quantity` for `cost`: the buyer's locked
/// quote falls by the cost and the quantity is credited to the buyer in
/// base; the seller's locked base falls by the quantity and the cost is
/// credited to the seller in quote.
pub open spec fn pay_trade(
    m: EngineView,
    buyer: u32,
    seller: u32,
    base: Seq<char>,
    quote: Seq<char>,
    cost: int,
    quantity: int,
) -> EngineView {
    let m1 = adjust_balance(m, buyer, quote, -cost, 0);
    let m2 = credit_or_open(m1, buyer, base, quantity);
    let m3 = adjust_balance(m2, seller, base, -quantity, 0);
    credit_or_open(m3, seller, quote, cost)
}

/// An order is completely filled once a trade of `quantity` more brings
/// its filled quantity to its quantity.
pub open spec fn filled_by(o: Order, quantity: u32) -> bool {
    sat_add_u32(o.filled_quantity, quantity) >= o.quantity
}

/// The orders of a trade that it filled completely leave the book.
pub open spec fn remove_filled(
    m: EngineView,
    stock: u32,
    bid_id: u32,
    bid_done: bool,
    ask_id: u32,
    ask_done: bool,
) -> EngineView {
    let m1 = if bid_done {
        after_remove_order(m, stock, bid_id, OrderSide::Buy)
    } else {
        m
    };
    if ask_done {
        after_remove_order(m1, stock, ask_id, OrderSide::Sell)
    } else {
        m1
    }
}

/// Settling a trade of `quantity` at `price` between bid `bid_id` and ask
/// `ask_id` of `stock`: both are filled by `quantity`, the trade is paid
/// (see [`pay_trade`], with cost `price * quantity`), the last price is
/// `price`, and each of the two orders that is now completely filled
/// leaves the book.
pub open spec fn after_settle_trade(
    m: EngineView,
    price: u32,
    quantity: u32,
    stock: u32,
    bid_id: u32,
    ask_id: u32,
) -> EngineView {
    let bid = order_of(m.books[stock].bids, bid_id);
    let ask = order_of(m.books[stock].asks, ask_id);
    let paid = pay_trade(
        fill_both(m, stock, bid_id, ask_id, quantity),
        bid.user_id,
        ask.user_id,
        m.stocks[stock].base,
        m.stocks[stock].quote,
        price * quantity,
        quantity as int,
    );
    remove_filled(
        with_last_price(paid, stock, price),
        stock,
        bid_id,
        filled_by(bid, quantity),
        ask_id,
        filled_by(ask, quantity),
    )
}

/// What cancelling an order releases from locked to available: of a bid,
/// the unfilled quantity times its price (in quote); of an ask, the
/// unfilled quantity (in base).
pub open spec fn cancel_release(o: Order, side: OrderSide) -> int {
    match side {
        OrderSide::Buy => (o.quantity - o.filled_quantity) * o.price,
        OrderSide::Sell => o.quantity - o.filled_quantity,
    }
}

/// Cancelling order `id` on `side` of `stock`: what it has left locked
/// (see [`cancel_release`]) moves from locked to available in the currency
/// of its side, and the order leaves the book.
pub open spec fn after_cancel_order(m: EngineView, stock: u32, id: u32, side: OrderSide) -> EngineView {
    let o = order_of(side_orders(m.books[stock], side), id);
    let release = cancel_release(o, side);
    let m1 = adjust_balance(m, o.user_id, order_currency(m, stock, side), -release, release);
    after_remove_order(m1, stock, id, side)
}

/// The best bid is at or above the best ask.
pub open spec fn crossed(b: BookView) -> bool {
    b.bids.len() > 0 && b.asks.len() > 0 && b.bids[0].price >= b.asks[0].price
}

/// The number of orders resting in the book of `stock`.
pub open spec fn book_size(m: EngineView, stock: u32) -> nat {
    m.books[stock].bids.len() + m.books[stock].asks.len()
}

/// One round of matching: the best bid and best ask trade the smaller of
/// their quantities at the ask's price.
pub open spec fn after_match_step(m: EngineView, stock: u32) -> EngineView {
    let bid = m.books[stock].bids[0];
    let ask = m.books[stock].asks[0];
    after_settle_trade(
        m,
        ask.price,
        min_u32(bid.quantity, ask.quantity),
        stock,
        bid.order_id,
        ask.order_id,
    )
}

/// Matching the book of `stock`: rounds of matching while it is crossed.
pub open spec fn after_match_order(m: EngineView, stock: u32) -> EngineView
    decreases book_size(m, stock),
{
    if m.books.contains_key(stock) && m.stocks.contains_key(stock) && crossed(m.books[stock]) {
        proof {
            lemma_match_step_shrinks(m, stock);
        }
        after_match_order(after_match_step(m, stock), stock)
    } else {
        m
    }
}


// ---------------------------------------------------------------------------
// Facts about the steps
// ---------------------------------------------------------------------------
/// A first position is the one `currency_index` gives.
pub proof fn lemma_currency_index(bals: Seq<BalanceView>, cur: Seq<char>, i: int)
    requires
        is_first_currency(bals, cur, i),
    ensures
        currency_index(bals, cur) == Some(i),
{
    let k = choose|k: int| is_first_currency(bals, cur, k);
    assert(is_first_currency(bals, cur, k));
    if k < i {
        assert(bals[k].currency != cur);
    } else if k > i {
        assert(bals[i].currency != cur);
    }
}

/// A first position is the one `order_index` gives.
pub proof fn lemma_order_index(orders: Seq<Order>, id: u32, i: int)
    requires
        is_first_order(orders, id, i),
    ensures
        order_index(orders, id) == Some(i),
{
    let k = choose|k: int| is_first_order(orders, id, k);
    assert(is_first_order(orders, id, k));
    if k < i {
        assert(orders[k].order_id != id);
    } else if k > i {
        assert(orders[i].order_id != id);
    }
}

/// Removing the orders of one id never lengthens a side, and shortens it
/// where it holds such an order.
pub proof fn lemma_without_order_len(s: Seq<Order>, id: u32)
    ensures
        without_order(s, id).len() <= s.len(),
        (exists|i: int| 0 <= i < s.len() && s[i].order_id == id) ==> without_order(s, id).len()
            < s.len(),
    decreases s.len(),
{
    reveal(Seq::filter);
    if s.len() > 0 {
        lemma_without_order_len(s.drop_last(), id);
        if exists|i: int| 0 <= i < s.len() && s[i].order_id == id {
            let i = choose|i: int| 0 <= i < s.len() && s[i].order_id == id;
            if i < s.len() - 1 {
                assert(s.drop_last()[i].order_id == id);
            }
        }
    }
}

/// Filling an order leaves the markets, the balances, the set of books and
/// the length and ids of each side as they were.
pub proof fn lemma_fill_shape(m: EngineView, stock: u32, side: OrderSide, id: u32, quantity: u32)
    requires
        m.books.contains_key(stock),
    ensures
        ({
            let r = fill_order(m, stock, side, id, quantity);
            &&& r.stocks == m.stocks
            &&& r.balances == m.balances
            &&& r.order_number == m.order_number
            &&& r.books.dom() == m.books.dom()
            &&& forall|s: u32| s != stock ==> r.books[s] == m.books[s]
            &&& r.books[stock].last_traded_price == m.books[stock].last_traded_price
            &&& r.books[stock].bids.len() == m.books[stock].bids.len()
            &&& r.books[stock].asks.len() == m.books[stock].asks.len()
            &&& forall|i: int|
                0 <= i < m.books[stock].bids.len() ==> #[trigger] r.books[stock].bids[i].order_id
                    == m.books[stock].bids[i].order_id
            &&& forall|i: int|
                0 <= i < m.books[stock].asks.len() ==> #[trigger] r.books[stock].asks[i].order_id
                    == m.books[stock].asks[i].order_id
            &&& forall|i: int|
                0 <= i < m.books[stock].bids.len() ==> #[trigger] r.books[stock].bids[i].user_id
                    == m.books[stock].bids[i].user_id
            &&& forall|i: int|
                0 <= i < m.books[stock].asks.len() ==> #[trigger] r.books[stock].asks[i].user_id
                    == m.books[stock].asks[i].user_id
            &&& side == OrderSide::Buy ==> r.books[stock].asks == m.books[stock].asks
            &&& side == OrderSide::Sell ==> r.books[stock].bids == m.books[stock].bids
        }),
{
    let b = m.books[stock];
    let os = side_orders(b, side);
    let r = fill_order(m, stock, side, id, quantity);
    assert(r.books.dom() =~= m.books.dom());
    match order_index(os, id) {
        Some(i) => {
            assert forall|j: int| 0 <= j < os.len() implies #[trigger] side_orders(r.books[stock], side)[j].order_id
                == os[j].order_id && side_orders(r.books[stock], side)[j].user_id == os[j].user_id by {
                if j == i {
                } else {
                }
            }
        },
        None => {},
    }
}

/// A step on balances leaves the markets, books and next id as they were.
pub proof fn lemma_balance_steps_keep_books(m: EngineView, user: u32, cur: Seq<char>, a: int, b: int)
    ensures
        adjust_balance(m, user, cur, a, b).books == m.books,
        adjust_balance(m, user, cur, a, b).stocks == m.stocks,
        adjust_balance(m, user, cur, a, b).order_number == m.order_number,
        credit_or_open(m, user, cur, a).books == m.books,
        credit_or_open(m, user, cur, a).stocks == m.stocks,
        credit_or_open(m, user, cur, a).order_number == m.order_number,
{
}

/// The parts of settling a trade, one by one: filling the two orders keeps
/// everything but their filled quantities; paying touches only balances;
/// recording the price touches only the last price; then the completely
/// filled orders leave the book.
pub proof fn lemma_settle_parts(
    m: EngineView,
    price: u32,
    quantity: u32,
    stock: u32,
    bid_id: u32,
    ask_id: u32,
)
    requires
        m.books.contains_key(stock),
    ensures
        ({
            let bid = order_of(m.books[stock].bids, bid_id);
            let ask = order_of(m.books[stock].asks, ask_id);
            let f = fill_both(m, stock, bid_id, ask_id, quantity);
            let p = pay_trade(
                f,
                bid.user_id,
                ask.user_id,
                m.stocks[stock].base,
                m.stocks[stock].quote,
                price * quantity,
                quantity as int,
            );
            let l = with_last_price(p, stock, price);
            &&& f.stocks == m.stocks
            &&& f.balances == m.balances
            &&& f.order_number == m.order_number
            &&& f.books.dom() == m.books.dom()
            &&& forall|s: u32| s != stock ==> f.books[s] == m.books[s]
            &&& f.books[stock].bids.len() == m.books[stock].bids.len()
            &&& f.books[stock].asks.len() == m.books[stock].asks.len()
            &&& forall|i: int|
                0 <= i < m.books[stock].bids.len() ==> #[trigger] f.books[stock].bids[i].order_id
                    == m.books[stock].bids[i].order_id
            &&& forall|i: int|
                0 <= i < m.books[stock].asks.len() ==> #[trigger] f.books[stock].asks[i].order_id
                    == m.books[stock].asks[i].order_id
            &&& forall|i: int|
                0 <= i < m.books[stock].bids.len() ==> #[trigger] f.books[stock].bids[i].user_id
                    == m.books[stock].bids[i].user_id
            &&& forall|i: int|
                0 <= i < m.books[stock].asks.len() ==> #[trigger] f.books[stock].asks[i].user_id
                    == m.books[stock].asks[i].user_id
            &&& p.books == f.books
            &&& p.stocks == m.stocks
            &&& p.order_number == m.order_number
            &&& l.books.dom() == m.books.dom()
            &&& forall|s: u32| s != stock ==> l.books[s] == m.books[s]
            &&& l.books[stock].bids == f.books[stock].bids
            &&& l.books[stock].asks == f.books[stock].asks
            &&& l.balances == p.balances
            &&& l.stocks == m.stocks
            &&& l.order_number == m.order_number
            &&& after_settle_trade(m, price, quantity, stock, bid_id, ask_id) == remove_filled(
                l,
                stock,
                bid_id,
                filled_by(bid, quantity),
                ask_id,
                filled_by(ask, quantity),
            )
        }),
{
    let bid = order_of(m.books[stock].bids, bid_id);
    let ask = order_of(m.books[stock].asks, ask_id);
    let base = m.stocks[stock].base;
    let quote = m.stocks[stock].quote;
    let cost = price * quantity;
    let q = quantity as int;
    let m1 = fill_order(m, stock, OrderSide::Buy, bid_id, quantity);
    lemma_fill_shape(m, stock, OrderSide::Buy, bid_id, quantity);
    lemma_fill_shape(m1, stock, OrderSide::Sell, ask_id, quantity);
    let f = fill_both(m, stock, bid_id, ask_id, quantity);
    let p1 = adjust_balance(f, bid.user_id, quote, -cost, 0);
    let p2 = credit_or_open(p1, bid.user_id, base, q);
    let p3 = adjust_balance(p2, ask.user_id, base, -q, 0);
    lemma_balance_steps_keep_books(f, bid.user_id, quote, -cost, 0);
    lemma_balance_steps_keep_books(p1, bid.user_id, base, q, 0);
    lemma_balance_steps_keep_books(p2, ask.user_id, base, -q, 0);
    lemma_balance_steps_keep_books(p3, ask.user_id, quote, cost, 0);
    let p = pay_trade(f, bid.user_id, ask.user_id, base, quote, cost, q);
    let l = with_last_price(p, stock, price);
    assert(l.books.dom() =~= m.books.dom());
}

/// Settling a trade keeps the markets, the set of books and the next id;
/// it never lengthens a side of the traded book, and shortens the side of
/// an order that the trade fills completely.
pub proof fn lemma_settle_shape(
    m: EngineView,
    price: u32,
    quantity: u32,
    stock: u32,
    bid_id: u32,
    ask_id: u32,
)
    requires
        m.books.contains_key(stock),
        order_index(m.books[stock].bids, bid_id) is Some,
        order_index(m.books[stock].asks, ask_id) is Some,
    ensures
        ({
            let r = after_settle_trade(m, price, quantity, stock, bid_id, ask_id);
            &&& r.stocks == m.stocks
            &&& r.order_number == m.order_number
            &&& r.books.dom() == m.books.dom()
            &&& r.books[stock].bids.len() <= m.books[stock].bids.len()
            &&& r.books[stock].asks.len() <= m.books[stock].asks.len()
            &&& filled_by(order_of(m.books[stock].bids, bid_id), quantity)
                ==> r.books[stock].bids.len() < m.books[stock].bids.len()
            &&& filled_by(order_of(m.books[stock].asks, ask_id), quantity)
                ==> r.books[stock].asks.len() < m.books[stock].asks.len()
        }),
{
    lemma_settle_parts(m, price, quantity, stock, bid_id, ask_id);
    let bid = order_of(m.books[stock].bids, bid_id);
    let ask = order_of(m.books[stock].asks, ask_id);
    let bi = order_index(m.books[stock].bids, bid_id)->0;
    let ai = order_index(m.books[stock].asks, ask_id)->0;
    let f = fill_both(m, stock, bid_id, ask_id, quantity);
    let l = with_last_price(
        pay_trade(f, bid.user_id, ask.user_id, m.stocks[stock].base, m.stocks[stock].quote, price * quantity, quantity as int),
        stock,
        price,
    );
    assert(l.books[stock].bids[bi].order_id == bid_id);
    assert(l.books[stock].asks[ai].order_id == ask_id);
    lemma_without_order_len(l.books[stock].bids, bid_id);
    let m8 = if filled_by(bid, quantity) {
        after_remove_order(l, stock, bid_id, OrderSide::Buy)
    } else {
        l
    };
    assert(m8.books.dom() =~= m.books.dom());
    assert(m8.books[stock].asks == l.books[stock].asks);
    lemma_without_order_len(m8.books[stock].asks, ask_id);
    let r = remove_filled(l, stock, bid_id, filled_by(bid, quantity), ask_id, filled_by(ask, quantity));
    assert(r.books.dom() =~= m.books.dom());
}

/// The best bid is the first bid with its id, and so is the best ask.
pub proof fn lemma_first_is_found(orders: Seq<Order>)
    requires
        orders.len() > 0,
    ensures
        order_index(orders, orders[0].order_id) == Some(0int),
        order_of(orders, orders[0].order_id) == orders[0],
{
    let id = orders[0].order_id;
    assert(is_first_order(orders, id, 0));
    let k = choose|k: int| is_first_order(orders, id, k);
    assert(is_first_order(orders, id, k));
    if k > 0 {
        assert(orders[0].order_id != id);
    }
}

/// A round of matching on a crossed book removes at least one order, and
/// keeps the markets and the set of books.
pub proof fn lemma_match_step_shrinks(m: EngineView, stock: u32)
    requires
        m.books.contains_key(stock),
        crossed(m.books[stock]),
    ensures
        after_match_step(m, stock).stocks == m.stocks,
        after_match_step(m, stock).books.dom() == m.books.dom(),
        after_match_step(m, stock).order_number == m.order_number,
        book_size(after_match_step(m, stock), stock) < book_size(m, stock),
{
    let b = m.books[stock];
    lemma_first_is_found(b.bids);
    lemma_first_is_found(b.asks);
    let bid = b.bids[0];
    let ask = b.asks[0];
    let q = min_u32(bid.quantity, ask.quantity);
    assert(filled_by(bid, q) || filled_by(ask, q));
    lemma_settle_shape(
        m,
        ask.price,
        min_u32(bid.quantity, ask.quantity),
        stock,
        bid.order_id,
        ask.order_id,
    );
}

/// Matching keeps the markets, the set of books and the next id.
pub proof fn lemma_match_keeps_shape(m: EngineView, stock: u32)
    ensures
        after_match_order(m, stock).stocks == m.stocks,
        after_match_order(m, stock).books.dom() == m.books.dom(),
        after_match_order(m, stock).order_number == m.order_number,
    decreases book_size(m, stock),
{
    if m.books.contains_key(stock) && m.stocks.contains_key(stock) && crossed(m.books[stock]) {
        lemma_match_step_shrinks(m, stock);
        lemma_match_keeps_shape(after_match_step(m, stock), stock);
    }
}

} // verus!
