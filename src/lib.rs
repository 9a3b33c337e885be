//! Simulated limit order book and discrete event market environment
//!
//! The order book is a price-time priority matching engine that also
//! keeps the history of every order and trade. The environment wraps a
//! book, queues order instructions submitted by agents and applies them
//! in a random order each simulation step.
pub mod types;
pub mod side;
pub mod orderbook;
pub mod data;
pub mod env;
pub mod market;
pub mod market_env;
pub mod laws;
