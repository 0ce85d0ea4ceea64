//! Key-based record matching engine: canonical join-key extraction from
//! newline-delimited structured records, an out-of-core keyed staging store
//! with ordered iteration, and a sorted merge-join classifier over two staged
//! sides.

pub mod bytes_order;
pub mod config;
pub mod errors;
pub mod extract;
pub mod merge;
pub mod pipeline;
pub mod record;
pub mod store;
pub mod stager;
pub mod stream;
