//! A limit order book with price-time priority matching, kept in two AVL trees
//! of price levels, together with the order-file parsing, upload bookkeeping,
//! rate-limit and price-level aggregation logic that surrounds it.
use vstd::prelude::*;

pub mod avl;
pub mod orderbook;
pub mod matching;
pub mod tradelog;
pub mod text;
pub mod parser;
pub mod clock;
pub mod app_state;
pub mod processor;
pub mod sessions;
pub mod levels;
pub mod auth;
pub mod sim;
pub mod chunks;
pub mod codec;
pub mod stream;
pub mod stats;
pub mod client;
pub mod preview;
pub mod socket;
pub mod upload_flow;

verus! {

} // verus!
