//! A central-limit order book matching engine: per-symbol two-sided books
//! with price-time priority, order-type policies (Market, Limit, IOC, FOK,
//! PostOnly/MakerOnly), self-trade prevention, quantized price/quantity
//! validation, and a pre-trade risk gate.

pub mod book;
pub mod engine;
pub mod laws;
pub mod model;
pub mod risk;
mod tables;
pub mod types;

pub use types::Fill;
pub use types::Order;
pub use types::OrderType;
pub use types::RiskError;
pub use types::Side;
pub use types::MAX_PRICE;
pub use types::MIN_PRICE;
pub use types::PRECISION;

pub use model::Level;
pub use book::OrderBook;
pub use engine::MatchingEngine;
pub use risk::RiskEngine;
