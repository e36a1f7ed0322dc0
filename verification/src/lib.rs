//! A limit order book exchange engine: per-market order books whose bids and
//! asks are kept in price order, user balances that lock funds while orders
//! rest, and a matching loop that settles crossing orders.
//!
//! All quantities and prices are whole numbers of the smallest unit of their
//! asset, and balances are signed 128-bit counts of such units.
pub mod schemas;
pub mod model;
pub mod engine;
pub mod laws;
pub mod api;
