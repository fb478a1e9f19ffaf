//! The keys under which the columns are stored, and their encodings.

pub mod block_number;
pub mod pubkey;
pub mod ud_id;
