//! What the API layer computes from the store: requests, queries and subscriptions.

pub mod bca;
pub mod idty;
pub mod new_blocks;
