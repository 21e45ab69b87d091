//! Market data core: a sorted limit order book and a family of streaming
//! technical indicators (SMA, EMA, RSI, Bollinger Bands, MACD).
//!
//! All quantities are fixed-point numbers ([`fixed::Fixed`]): an integer
//! count of millionths. Every operation is specified exactly over that
//! integer arithmetic, including the truncation its divisions perform.

pub mod demo;
pub mod fixed;
pub mod indicators;
pub mod orderbook;

pub use demo::{demo_orderbook, demo_indicators};
pub use fixed::Fixed;
pub use indicators::{SMA, EMA, RSI, BollingerBands, MACD};
pub use orderbook::{OrderBook, PriceLevel};
