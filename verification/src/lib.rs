//! Client core for a line-delimited market-data feed: frame extraction from an
//! irregularly chunked byte stream, and the connection's state machine.

pub mod accumulator;
pub mod client;
pub mod commands;
pub mod errors;
pub mod framing;
pub mod scanner;
pub mod trace;
