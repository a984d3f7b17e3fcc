//! An embedded, ordered key-value storage engine organized as a
//! log-structured merge tree: blocks, sorted runs, merge iterators and the
//! freeze/flush state machine, with machine-checked contracts.

pub mod block;
pub mod bounds;
pub mod byte_order;
pub mod entries;
pub mod errors;
pub mod iterators;
pub mod lsm_iterator;
pub mod lsm_storage;
pub mod mem_table;
pub mod num_codec;
pub mod table;
