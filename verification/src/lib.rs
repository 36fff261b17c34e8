//! Matching core of a multi-instrument exchange.
//!
//! Orders are matched by price-time priority against the resting liquidity of
//! their instrument. Prices and quantities are whole numbers of ticks and lots.
//! Every operation is stated over a mathematical view of the book: two
//! best-first sequences of price levels, each a first-in-first-out queue of
//! orders together with the sum of their remaining quantities.

pub mod book;
pub mod engine;
pub mod level;
pub mod matching;
pub mod order;
pub mod theorems;

pub use book::{BookView, OrderBook};
pub use engine::MatchingEngine;
pub use level::{LevelView, OrderEntry};
pub use order::{OrderLifeTime, OrderRecord, OrderSide, OrderStatus, OrderType, OrderView};
