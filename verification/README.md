# cex_v1_rust

A small centralised-exchange engine: markets, per-market limit order books,
user balances that lock funds while orders rest, and a matching loop that
settles crossing orders. The engine is written in Verus and proved against
a mathematical model of its state.

## Units

Quantities and prices are whole numbers (`u32`) of the smallest unit of
their asset, and balances are signed 128-bit counts of such units. A bid
for `q` at price `p` locks `q * p` of the quote currency; an ask locks `q`
of the base currency. Balances that would pass the ends of `i128` stop
there, and a filled quantity stops at `u32::MAX`. An order leaves the book
once its filled quantity reaches its quantity; cancelling releases what an
order still has locked (unfilled quantity times price for a bid, unfilled
quantity for an ask).

## Layout

- `src/schemas.rs` — orders, books, balances, markets, and their values.
- `src/model.rs` — the engine's state as maps and sequences
  (`EngineView`), and what each operation makes of it (`after_add_order`,
  `after_settle_trade`, `after_cancel_order`, `after_remove_order`,
  `after_match_order`).
- `src/engine.rs` — the `Engine` and its operations; each one's contract
  says its result is the model's.
- `src/laws.rs` — proofs of what holds across operations: price order of
  the books, orders on their own side and market, fresh and unique order
  ids, placing never takes a balance below 0, cancelling an order undoes
  placing it, funds are conserved by placing, cancelling, trading and matching.
- `src/api.rs` — the request bodies and what each HTTP route does to the
  engine.
- `app/main.rs` — the HTTP server (axum, tokio), JSON forms of the types
  (serde) and the handlers.
- `tests/` — scenario tests.
