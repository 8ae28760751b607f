//! Chunked-range download planning and decoding for candlestick (kline)
//! market data.
//!
//! The crate covers the part of a kline downloader that has real
//! invariants: splitting a requested time range into bounded sub-ranges,
//! building one request URL per sub-range for each supported exchange,
//! decoding and re-encoding the exchanges' array-of-arrays wire format,
//! collecting per-request outcomes in submission order under bounded
//! concurrency, and resuming a partial download from the last persisted
//! record.  Network I/O, the command line and the progress display live
//! outside the library and hand it plain values.

pub mod cli;
pub mod codec;
pub mod dispatch;
pub mod errors;
pub mod market;
pub mod resume;
pub mod binance;
pub mod gate;
pub mod split;
pub mod summary;
pub mod text;
