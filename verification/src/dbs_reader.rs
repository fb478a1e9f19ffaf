//! Read-only queries on the blockchain state. Each takes the state by shared
//! reference, so that its answer is of one moment.

use crate::bc::BcV2Db;
use crate::bytes::be32;
use crate::errors::{DecodeFault, Failure, KvError, KvResult};
use crate::keys::block_number::U32BE;
use crate::keys::pubkey::{PubKeyKeyV2, PublicKey};
use crate::values::block_meta::BlockMetaV2;
use crate::values::idty_db::IdtyDbV2;
use vstd::prelude::*;

verus! {

impl BcV2Db {
    /// Whether the identity with this public key is a member now; nothing where
    /// no identity has this public key.
    pub fn pubkey_is_member(&self, pubkey: PublicKey) -> (r: KvResult<Option<bool>>)
        requires
            self.wf(),
        ensures
            !self.identities@.contains_key(pubkey.bytes()) ==> r == Ok::<Option<bool>, KvError>(
                None,
            ),
            self.identities@.contains_key(pubkey.bytes()) ==> (r is Ok == IdtyDbV2::fault_of(
                self.identities@[pubkey.bytes()],
            ) is None),
            self.identities@.contains_key(pubkey.bytes()) && r is Ok ==> r->Ok_0 == Some(
                IdtyDbV2::is_member(self.identities@[pubkey.bytes()]),
            ),
            self.identities@.contains_key(pubkey.bytes()) && r is Err ==> r->Err_0@ == (
            Failure::Corrupted {
                bytes: self.identities@[pubkey.bytes()],
                fault: IdtyDbV2::fault_of(self.identities@[pubkey.bytes()])->Some_0,
            }),
    {
        let key = PubKeyKeyV2(pubkey).as_bytes();
        match self.identities.get(key.as_slice()) {
            None => Ok(None),
            Some(stored) => match IdtyDbV2::member_flag(stored.as_slice()) {
                Ok(member) => Ok(Some(member)),
                Err(c) => Err(KvError::CorruptedRecord(c)),
            },
        }
    }

    /// The metadata of the block `number`; nothing where the block is not stored.
    pub fn block(&self, number: U32BE) -> (r: KvResult<Option<BlockMetaV2>>)
        requires
            self.wf(),
        ensures
            !self.blocks_meta@.contains_key(be32(number.0)) ==> r == Ok::<
                Option<BlockMetaV2>,
                KvError,
            >(None),
            self.blocks_meta@.contains_key(be32(number.0)) ==> (r is Ok == (
            self.blocks_meta@[be32(number.0)].len() == 36)),
            self.blocks_meta@.contains_key(be32(number.0)) && r is Ok ==> r->Ok_0 is Some
                && r->Ok_0->Some_0.encoding() == self.blocks_meta@[be32(number.0)],
            self.blocks_meta@.contains_key(be32(number.0)) && r is Err ==> r->Err_0@ == (
            Failure::Corrupted {
                bytes: self.blocks_meta@[be32(number.0)],
                fault: DecodeFault::InvalidLength {
                    expected: 36,
                    found: self.blocks_meta@[be32(number.0)].len() as usize,
                },
            }),
    {
        let key = number.as_bytes();
        match self.blocks_meta.get(key.as_slice()) {
            None => Ok(None),
            Some(stored) => match BlockMetaV2::from_bytes(stored.as_slice()) {
                Ok(meta) => Ok(Some(meta)),
                Err(c) => Err(KvError::CorruptedRecord(c)),
            },
        }
    }
}

} // verus!
