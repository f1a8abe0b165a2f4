//! A consolidated limit-order-book library.
//!
//! The crate ingests price-depth updates from several exchanges, rebuilds a
//! gap-free local book per exchange from a snapshot plus sequenced deltas,
//! and merges the per-exchange books into one ranked top-of-book view.

pub mod aggregate;
pub mod binance;
pub mod bitstamp;
pub mod book;
pub mod config;
pub mod dec;
pub mod decode;
pub mod json;
pub mod side;
pub mod sync;
pub mod types;

use vstd::prelude::*;

verus! {

/// An error code and message pair, as reported on the outbound
/// interfaces.
#[derive(Clone, Debug, PartialEq, Eq)]
pub struct ErrorMessage {
    pub code: i32,
    pub message: String,
}

impl ErrorMessage {
    pub fn new(code: i32, message: String) -> (r: ErrorMessage)
        ensures
            r.code == code,
            r.message == message,
    {
        ErrorMessage { code, message }
    }
}

} // verus!
