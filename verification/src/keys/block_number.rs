//! Block numbers as column keys: four bytes, most significant first, so that
//! the column is iterated in the order of the numbers.

use crate::bytes::{be32, lemma_be32_order, lex_lt, u32_from_be, u32_to_be};
use crate::errors::{CorruptedBytes, DecodeFault};
use vstd::prelude::*;

verus! {

/// The number of a block: its height in the chain.
#[derive(Clone, Copy, Debug, PartialEq, Eq, Hash, PartialOrd, Ord, Default)]
pub struct BlockNumber(pub u32);

/// A number stored as four big-endian bytes.
#[derive(Clone, Copy, Debug, PartialEq, Eq, Hash, PartialOrd, Ord)]
pub struct U32BE(pub u32);

impl U32BE {
    /// The four bytes that are stored.
    pub open spec fn encoding(&self) -> Seq<u8> {
        be32(self.0)
    }

    /// The bytes that are stored.
    pub fn as_bytes(&self) -> (r: Vec<u8>)
        ensures
            r@ == be32(self.0),
    {
        u32_to_be(self.0)
    }

    /// The number that stored bytes decode to. Anything but four bytes is corrupted.
    pub fn from_bytes(bytes: &[u8]) -> (r: Result<Self, CorruptedBytes>)
        ensures
            r is Ok == (bytes@.len() == 4),
            r is Ok ==> be32(r->Ok_0.0) == bytes@,
            r is Err ==> r->Err_0.bytes@ == bytes@ && r->Err_0.fault == (DecodeFault::InvalidLength {
                expected: 4,
                found: bytes@.len() as usize,
            }),
    {
        if bytes.len() != 4 {
            return Err(
                CorruptedBytes::new(
                    bytes,
                    DecodeFault::InvalidLength { expected: 4, found: bytes.len() },
                ),
            );
        }
        Ok(U32BE(u32_from_be(bytes)))
    }
}

/// The stored keys are ordered as the numbers are, and distinct numbers have distinct keys.
pub proof fn lemma_u32be_order(a: U32BE, b: U32BE)
    ensures
        lex_lt(a.encoding(), b.encoding()) == (a.0 < b.0),
        (a.encoding() == b.encoding()) == (a.0 == b.0),
{
    lemma_be32_order(a.0, b.0);
}

} // verus!
