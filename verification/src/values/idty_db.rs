//! The record of an identity, of which this store reads the membership only.

use crate::errors::{CorruptedBytes, DecodeFault};
use vstd::prelude::*;
use vstd::slice::{slice_subrange, slice_to_vec};

verus! {

/// An identity as it is stored: whether it is a member now, and what else the
/// component that owns identities keeps with it.
#[derive(Clone, Debug, PartialEq, Eq)]
pub struct IdtyDbV2 {
    pub member: bool,
    pub data: Vec<u8>,
}

impl IdtyDbV2 {
    /// The bytes that are stored: one byte for the membership, 1 or 0, then the rest.
    pub open spec fn encoding(&self) -> Seq<u8> {
        seq![if self.member { 1u8 } else { 0u8 }] + self.data@
    }

    /// Why stored bytes are no identity, if they are none.
    pub open spec fn fault_of(bytes: Seq<u8>) -> Option<DecodeFault> {
        if bytes.len() == 0 {
            Some(DecodeFault::InvalidLength { expected: 1, found: 0 })
        } else if bytes[0] > 1 {
            Some(DecodeFault::InvalidFlag { flag: bytes[0] })
        } else {
            None
        }
    }

    /// Whether stored bytes are those of a member: a valid record whose first byte is 1.
    pub open spec fn is_member(bytes: Seq<u8>) -> bool {
        bytes.len() > 0 && bytes[0] == 1
    }

    /// The bytes that are stored.
    pub fn as_bytes(&self) -> (r: Vec<u8>)
        ensures
            r@ == self.encoding(),
            Self::fault_of(r@) is None,
            Self::is_member(r@) == self.member,
    {
        let mut r: Vec<u8> = Vec::new();
        r.push(if self.member { 1u8 } else { 0u8 });
        let mut rest = slice_to_vec(self.data.as_slice());
        r.append(&mut rest);
        assert(r@ =~= self.encoding());
        r
    }

    /// Whether stored bytes are those of a member, without decoding the rest.
    pub fn member_flag(bytes: &[u8]) -> (r: Result<bool, CorruptedBytes>)
        ensures
            r is Ok == Self::fault_of(bytes@) is None,
            r is Ok ==> r->Ok_0 == Self::is_member(bytes@),
            r is Err ==> r->Err_0.bytes@ == bytes@ && Some(r->Err_0.fault) == Self::fault_of(bytes@),
    {
        if bytes.len() == 0 {
            return Err(
                CorruptedBytes::new(bytes, DecodeFault::InvalidLength { expected: 1, found: 0 }),
            );
        }
        let flag = bytes[0];
        if flag > 1 {
            return Err(CorruptedBytes::new(bytes, DecodeFault::InvalidFlag { flag }));
        }
        Ok(flag == 1)
    }

    /// The identity that stored bytes decode to.
    pub fn from_bytes(bytes: &[u8]) -> (r: Result<Self, CorruptedBytes>)
        ensures
            r is Ok == Self::fault_of(bytes@) is None,
            r is Ok ==> r->Ok_0.encoding() == bytes@ && r->Ok_0.member == Self::is_member(bytes@),
            r is Err ==> r->Err_0.bytes@ == bytes@ && Some(r->Err_0.fault) == Self::fault_of(bytes@),
    {
        if bytes.len() == 0 {
            return Err(
                CorruptedBytes::new(bytes, DecodeFault::InvalidLength { expected: 1, found: 0 }),
            );
        }
        let flag = bytes[0];
        if flag > 1 {
            return Err(CorruptedBytes::new(bytes, DecodeFault::InvalidFlag { flag }));
        }
        let r = IdtyDbV2 {
            member: flag == 1,
            data: slice_to_vec(slice_subrange(bytes, 1, bytes.len())),
        };
        assert(r.encoding() =~= bytes@);
        Ok(r)
    }
}

/// Two identities with the same stored bytes are the same identity.
pub proof fn lemma_idty_encoding_injective(a: IdtyDbV2, b: IdtyDbV2)
    requires
        a.encoding() == b.encoding(),
    ensures
        a.member == b.member,
        a.data@ == b.data@,
{
    assert(a.encoding()[0] == (if a.member { 1u8 } else { 0u8 }));
    assert(b.encoding()[0] == (if b.member { 1u8 } else { 0u8 }));
    assert(a.encoding().subrange(1, a.encoding().len() as int) =~= a.data@);
    assert(b.encoding().subrange(1, b.encoding().len() as int) =~= b.data@);
}

} // verus!
