//! What the store keeps of a block: its number and its hash.

use crate::bytes::{be32, u32_from_be, u32_to_be};
use crate::errors::{CorruptedBytes, DecodeFault};
use crate::keys::block_number::BlockNumber;
use vstd::prelude::*;

verus! {

/// The hash of a block.
#[derive(Clone, Copy, Debug, PartialEq, Eq, Hash, Default)]
pub struct BlockHash(pub [u8; 32]);

/// A block named by its number and its hash.
#[derive(Clone, Copy, Debug, PartialEq, Eq, Hash, Default)]
pub struct Blockstamp {
    pub number: BlockNumber,
    pub hash: BlockHash,
}

/// The metadata of a block as it is stored.
#[derive(Clone, Copy, Debug, PartialEq, Eq, Hash, Default)]
pub struct BlockMetaV2 {
    pub number: u32,
    pub hash: BlockHash,
}

impl BlockMetaV2 {
    /// The thirty-six bytes that are stored: the number, big-endian, then the hash.
    pub open spec fn encoding(&self) -> Seq<u8> {
        be32(self.number) + self.hash.0@
    }

    /// The bytes that are stored.
    pub fn as_bytes(&self) -> (r: Vec<u8>)
        ensures
            r@ == self.encoding(),
    {
        let mut r = u32_to_be(self.number);
        let mut i: usize = 0;
        while i < 32
            invariant
                i <= 32,
                r@ == be32(self.number) + self.hash.0@.take(i as int),
            decreases 32 - i,
        {
            r.push(self.hash.0[i]);
            assert(self.hash.0@.take(i as int).push(self.hash.0@[i as int]) =~= self.hash.0@.take(
                i + 1,
            ));
            assert(r@ =~= be32(self.number) + self.hash.0@.take(i + 1));
            i += 1;
        }
        assert(self.hash.0@.take(32) =~= self.hash.0@);
        r
    }

    /// The metadata that stored bytes decode to. Anything but thirty-six bytes is corrupted.
    pub fn from_bytes(bytes: &[u8]) -> (r: Result<Self, CorruptedBytes>)
        ensures
            r is Ok == (bytes@.len() == 36),
            r is Ok ==> r->Ok_0.encoding() == bytes@,
            r is Err ==> r->Err_0.bytes@ == bytes@ && r->Err_0.fault == (DecodeFault::InvalidLength {
                expected: 36,
                found: bytes@.len() as usize,
            }),
    {
        if bytes.len() != 36 {
            return Err(
                CorruptedBytes::new(
                    bytes,
                    DecodeFault::InvalidLength { expected: 36, found: bytes.len() },
                ),
            );
        }
        let number = u32_from_be(vstd::slice::slice_subrange(bytes, 0, 4));
        let mut hash: [u8; 32] = [0u8; 32];
        let mut i: usize = 0;
        while i < 32
            invariant
                i <= 32,
                bytes@.len() == 36,
                forall|j: int| 0 <= j < i ==> hash@[j] == bytes@[j + 4],
            decreases 32 - i,
        {
            hash[i] = bytes[i + 4];
            i += 1;
        }
        let r = BlockMetaV2 { number, hash: BlockHash(hash) };
        assert(r.encoding() =~= bytes@);
        Ok(r)
    }
}

/// Two blocks with the same stored bytes have the same number and the same hash.
pub proof fn lemma_block_meta_encoding_injective(a: BlockMetaV2, b: BlockMetaV2)
    requires
        a.encoding() == b.encoding(),
    ensures
        a.number == b.number,
        a.hash.0@ == b.hash.0@,
{
    crate::bytes::lemma_be32_inverse(a.number, seq![]);
    crate::bytes::lemma_be32_inverse(b.number, seq![]);
    assert(a.encoding().subrange(0, 4) =~= be32(a.number));
    assert(b.encoding().subrange(0, 4) =~= be32(b.number));
    assert(a.encoding().subrange(4, 36) =~= a.hash.0@);
    assert(b.encoding().subrange(4, 36) =~= b.hash.0@);
    crate::bytes::lemma_be32_order(a.number, b.number);
}

} // verus!
