//! A single-instrument limit order book with price-time priority matching.
//!
//! The book keeps two queues of resting limit orders, bids and asks, each
//! ordered best price first and, within one price, earliest arrival first.
//! An incoming request is walked against the opposite queue, trades are
//! reported at the resting order's price, and what is left of a limit
//! request rests at the tail of its price band.

pub mod book_side;
pub mod displayers;
pub mod laws;
pub mod matcher;
pub mod model;
pub mod queue;
pub mod walk;

pub use crate::matcher::OrderBook;
pub use crate::model::{MarketAction, MatchingResult, Request, RequestAction, Side, Type};
pub use crate::queue::RequestQueue;
