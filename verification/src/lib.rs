//! Ledger-state core of a blockchain node: a keyed column store with
//! byte-ordered iteration and write transactions, the codecs of its keys and
//! values, the write operations that credit and withdraw the universal
//! dividend, the bus that tells subscribers what was committed, and the
//! read-only queries of the API.

pub mod bc;
pub mod bus;
pub mod bytes;
pub mod cm;
pub mod column;
pub mod dbs_reader;
pub mod errors;
pub mod gva;
pub mod keys;
pub mod transaction;
pub mod values;
