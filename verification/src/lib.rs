//! A price-time priority limit order book, and the integer core of a small
//! market simulation built on it.
//!
//! Prices are integer ticks and quantities integer lots. Matching appends
//! events to a buffer on the book that the caller drains.
//!
//! - `order`: prices, quantities, sides, fills and events.
//! - `model`: the abstract book and what each operation does to it.
//! - `book`: the engine, proved against `model`.
//! - `laws`: what holds of matching on all inputs.
//! - `naive`: a brute-force scanning book, and the proof that the engine
//!   behaves exactly like it on every stream of operations.
//! - `sim_laws`: what the simulation core's housekeeping promises.
//! - `streams`: what holds along a whole stream of operations.
//! - `rng`, `makers`, `sim`: the generator, the market makers' quoting
//!   rules and the accounting core of the market simulation.

pub mod book;
pub mod laws;
pub mod makers;
pub mod model;
pub mod naive;
pub mod order;
pub mod rng;
pub mod sim;
pub mod sim_laws;
pub mod streams;

pub use book::Book;
pub use makers::{Brain, Maker};
pub use model::{BookView, Resting};
pub use order::{Event, Fill, OrderId, Owner, Price, Qty, Side};
pub use rng::Pcg32;
pub use sim::{
    Account, Sim, Trade, BOT, INFORMED, MAKER_FIXED, MAKER_SKEW, MAKER_WARY, NOISE_COUNT, NOISE_FIRST,
    USER,
};
