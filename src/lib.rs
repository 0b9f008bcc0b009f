//! A limit order book for one instrument, rebuilt by replaying snapshot and
//! incremental messages.
//!
//! Prices and sizes are fixed-point integers: the caller picks a unit (for
//! instance 1e-8 of a currency unit) and writes the tick size in that same unit.
//!
//! - `types`: quotes, sides, errors and the price-to-bucket codec;
//! - `side`: one side of the book, its levels and its id index;
//! - `book`: the book, message application, cleanup and batch replay;
//! - `laws`: properties of the above, proved.

pub mod types;
pub mod side;
pub mod book;
pub mod laws;
