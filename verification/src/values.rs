//! The values that the columns hold, and their encodings.

pub mod block_meta;
pub mod idty_db;
pub mod source_amount;
pub mod tx_db;
