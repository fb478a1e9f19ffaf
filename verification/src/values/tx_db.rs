//! A pending transaction as it is stored: the whole signed document, serialized.

use crate::errors::{CorruptedBytes, DecodeFault};
use dubp::documents::transaction::TransactionDocumentV10;
use vstd::prelude::*;

verus! {

/// dubp's transaction document. The store carries it and does not look inside.
#[verifier::external_type_specification]
#[verifier::external_body]
pub struct ExTransactionDocumentV10(TransactionDocumentV10);

/// The bytes that `bincode::serialize` returns for a transaction document, if it
/// returns any.
pub uninterp spec fn tx_bytes(tx: TransactionDocumentV10) -> Option<Seq<u8>>;

/// The transaction document that `bincode::deserialize` returns for bytes, if it
/// returns one.
pub uninterp spec fn tx_of_bytes(bytes: Seq<u8>) -> Option<TransactionDocumentV10>;

/// Calls `bincode::serialize` on the document. Believed: the outcome is a
/// function of the document.
#[verifier::external_body]
fn tx_serialize(tx: &TransactionDocumentV10) -> (r: Option<Vec<u8>>)
    ensures
        r is Some == tx_bytes(*tx) is Some,
        r is Some ==> r->Some_0@ == tx_bytes(*tx)->Some_0,
{
    bincode::serialize(tx).ok()
}

/// Calls `bincode::deserialize` on the bytes. Believed: the outcome is a
/// function of the bytes.
#[verifier::external_body]
fn tx_deserialize(bytes: &[u8]) -> (r: Option<TransactionDocumentV10>)
    ensures
        r == tx_of_bytes(bytes@),
{
    bincode::deserialize(bytes).ok()
}

/// A transaction that waits in the mempool.
#[derive(Debug, Default, PartialEq)]
pub struct PendingTxDbV2(pub TransactionDocumentV10);

impl PendingTxDbV2 {
    /// The bytes that are stored, if the document serializes.
    pub fn as_bytes(&self) -> (r: Option<Vec<u8>>)
        ensures
            r is Some == tx_bytes(self.0) is Some,
            r is Some ==> r->Some_0@ == tx_bytes(self.0)->Some_0,
    {
        tx_serialize(&self.0)
    }

    /// The transaction that stored bytes decode to. Bytes that do not deserialize
    /// are corrupted.
    pub fn from_bytes(bytes: &[u8]) -> (r: Result<Self, CorruptedBytes>)
        ensures
            r is Ok == tx_of_bytes(bytes@) is Some,
            r is Ok ==> Some(r->Ok_0.0) == tx_of_bytes(bytes@),
            r is Err ==> r->Err_0.bytes@ == bytes@ && r->Err_0.fault == DecodeFault::Malformed,
    {
        match tx_deserialize(bytes) {
            Some(tx) => Ok(PendingTxDbV2(tx)),
            None => Err(CorruptedBytes::new(bytes, DecodeFault::Malformed)),
        }
    }
}

} // verus!
