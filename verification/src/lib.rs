//! Fraud scoring over an inverted-file (IVF) index of labelled transactions.

pub mod agreement;
pub mod bytes;
pub mod calendar;
pub mod compact;
pub mod config;
pub mod decimals;
pub mod exact;
pub mod extreme;
pub mod format;
pub mod headers;
pub mod http;
pub mod index;
pub mod json;
pub mod payload;
pub mod probe;
pub mod scan;
pub mod search;
pub mod session;
pub mod single;
pub mod text;
pub mod top5;
