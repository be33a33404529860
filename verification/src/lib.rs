//! A single-instrument order-matching engine.
//!
//! The engine accepts buy/sell order intents, keeps a priced, time-ordered
//! book of resting orders, and matches incoming orders against that book
//! under price-time priority, producing trade and placement events.
//!
//! Order storage is arena-backed: all resting orders live in one growable
//! pool addressed by stable integer indices, each price level forming a
//! singly linked FIFO queue of arena slots. The behaviour of the engine is
//! specified by a functional model (`model`) and every mutating operation is
//! proved to implement it.

pub mod arena;
pub mod book;
pub mod channel;
pub mod engine;
pub mod frame;
pub mod laws;
pub mod model;
pub mod order;

pub use arena::OrderArena;
pub use book::BookSide;
pub use book::PriceLevel;
pub use engine::MatchingEngine;
pub use frame::parse_frames;
pub use order::LogEvent;
pub use order::Order;
pub use order::OrderType;
