//! The matching core of a limit-order exchange for one instrument: a
//! two-sided book of resting orders, matched under strict price-time
//! priority with exact decimal quantities.
//!
//! * [`order`] holds the values that callers hand in and get back: orders
//!   and trades.
//! * [`decimal`] holds [`Amount`], the decimal number of prices and
//!   quantities. Its arithmetic is `rust_decimal`'s.
//! * [`book`] holds one side of the book: price levels in priority order,
//!   each a queue in arrival order, and how an order comes to rest.
//! * [`sweep`] says what matching an incoming order against one side does,
//!   and does it.
//! * [`arbitrage`] holds the advisory on an order that crosses the book.
//! * [`engine`] holds [`OrderBook`], which puts these together.
//! * [`lemmas`] and [`laws`] prove what holds of every book and of every
//!   match: levels stay ordered, makers trade in priority order at their own
//!   price and for no more than they have, quantity is conserved, and a match
//!   leaves no crossed book.
//!
//! Everything is verified but four calls into other crates, whose contracts
//! are taken on trust: the comparison, the subtraction and the printing of
//! decimal numbers in [`decimal`], and the reading of the clock in [`order`].

pub mod arbitrage;
pub mod book;
pub mod decimal;
pub mod engine;
pub mod laws;
pub mod lemmas;
pub mod order;
pub mod sweep;

pub use book::{BookSide, PriceLevel};
pub use decimal::Amount;
pub use engine::{MatchError, OrderBook, Submission};
pub use order::{CreateOrderPayload, Order, OrderType, Side, Timestamp, Trade};
