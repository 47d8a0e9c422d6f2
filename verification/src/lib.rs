//! Mirroring of per-day sensor captures from a data logger and their
//! conversion into tab-separated time series: the decisions and the text
//! handling, with contracts.

pub mod error;
pub mod text;
pub mod datecode;
pub mod listing;
pub mod cache;
pub mod civil;
pub mod resolver;
pub mod inventory;
pub mod plan;
pub mod table;
pub mod rolling;
pub mod bounded;
pub mod names;
