//! Ingestion of a market-data ticker feed into a columnar time-series store.
//!
//! The library holds the verified logic: normalisation of feed events, the
//! store's binary framing, the batching buffer with its retry discipline, the
//! insert command, and the decisions of the feed client's connection loop.
pub mod codec;
pub mod feed;
pub mod models;
pub mod number;
pub mod sink;
