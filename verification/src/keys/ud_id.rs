//! The key of a dividend credit: who was credited, and at which block.

use crate::bytes::{be32, lemma_be32_inverse, u32_from_be, u32_to_be};
use crate::errors::{CorruptedBytes, DecodeFault};
use crate::keys::block_number::BlockNumber;
use crate::keys::pubkey::PublicKey;
use vstd::prelude::*;
use vstd::slice::slice_subrange;

verus! {

/// The dividend that the member with this public key was credited at this block.
#[derive(Clone, Copy, Debug, PartialEq, Eq, Hash)]
pub struct UdIdV2(pub PublicKey, pub BlockNumber);

/// The stored key of the credit of the key with the bytes `pubkey` at the block `number`.
pub open spec fn credit_key(pubkey: Seq<u8>, number: u32) -> Seq<u8> {
    pubkey + be32(number)
}

impl UdIdV2 {
    /// The thirty-seven bytes that are stored: the public key, then the block number.
    pub open spec fn encoding(&self) -> Seq<u8> {
        credit_key(self.0.bytes(), self.1.0)
    }

    /// The bytes that are stored.
    pub fn as_bytes(&self) -> (r: Vec<u8>)
        ensures
            r@ == self.encoding(),
    {
        let mut r = self.0.to_bytes();
        let mut number = u32_to_be(self.1.0);
        r.append(&mut number);
        r
    }

    /// The credit that stored bytes decode to. Anything but thirty-seven bytes is corrupted.
    pub fn from_bytes(bytes: &[u8]) -> (r: Result<Self, CorruptedBytes>)
        ensures
            r is Ok == (bytes@.len() == 37),
            r is Ok ==> r->Ok_0.encoding() == bytes@,
            r is Err ==> r->Err_0.bytes@ == bytes@ && r->Err_0.fault == (DecodeFault::InvalidLength {
                expected: 37,
                found: bytes@.len() as usize,
            }),
    {
        if bytes.len() != 37 {
            return Err(
                CorruptedBytes::new(
                    bytes,
                    DecodeFault::InvalidLength { expected: 37, found: bytes.len() },
                ),
            );
        }
        let pubkey = PublicKey::from_key_bytes(slice_subrange(bytes, 0, 33));
        let number = u32_from_be(slice_subrange(bytes, 33, 37));
        let r = UdIdV2(pubkey, BlockNumber(number));
        assert(r.encoding() =~= bytes@);
        Ok(r)
    }
}

/// Two credits have the same stored key only if they are of the same public key at
/// the same block.
pub proof fn lemma_credit_key_injective(p: Seq<u8>, m: u32, q: Seq<u8>, n: u32)
    requires
        p.len() == q.len(),
        credit_key(p, m) == credit_key(q, n),
    ensures
        p == q,
        m == n,
{
    let a = credit_key(p, m);
    let b = credit_key(q, n);
    lemma_be32_inverse(m, seq![]);
    lemma_be32_inverse(n, seq![]);
    assert(a.subrange(0, p.len() as int) =~= p);
    assert(b.subrange(0, q.len() as int) =~= q);
    assert(a.subrange(p.len() as int, a.len() as int) =~= be32(m));
    assert(b.subrange(q.len() as int, b.len() as int) =~= be32(n));
}

} // verus!
