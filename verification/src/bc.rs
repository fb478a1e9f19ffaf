//! The columns of the blockchain state, and the write operations on them.

pub mod laws;
pub mod uds;

use crate::bc::laws::{
    create_fails_with, credited, lemma_credit_removes, lemma_credit_upserts,
    lemma_members_found, lemma_reval_removes, lemma_reval_upserts, lemma_scan_of_identities,
    member_keys, reval_created, reval_reverted, revert_fails_with, valid_identities, withdrawn,
};
use crate::bc::uds::{
    create_uds, credit_removes, credit_upserts, greatest_key, has_greatest, members_of,
    previous_fault, reval_removes, reval_upserts, revert_uds,
};
use crate::bus::{published, Subscribers};
use crate::column::Column;
use crate::errors::KvResult;
use crate::keys::block_number::BlockNumber;
use crate::transaction::{Mutation, TxColRw};
use crate::values::source_amount::SourceAmount;
use vstd::prelude::*;

verus! {

/// The columns of the blockchain state that the dividend is written to, with
/// the column of block metadata, and the subscribers of the columns written.
pub struct BcV2Db {
    /// Block number to the metadata of the block.
    pub blocks_meta: Column,
    /// Public key to identity.
    pub identities: Column,
    /// Public key and block number to nothing: who was credited the dividend, and when.
    pub uds: Column,
    /// Block number to the dividend from that block on.
    pub uds_reval: Column,
    /// Who is told what is committed to the credits.
    pub uds_subscribers: Subscribers,
    /// Who is told what is committed to the revaluations.
    pub uds_reval_subscribers: Subscribers,
}

impl BcV2Db {
    /// Every column is well formed.
    pub open spec fn wf(&self) -> bool {
        &&& self.blocks_meta.wf()
        &&& self.identities.wf()
        &&& self.uds.wf()
        &&& self.uds_reval.wf()
    }

    /// A state without blocks.
    pub fn new() -> (r: BcV2Db)
        ensures
            r.wf(),
            r.blocks_meta@ == Map::<Seq<u8>, Seq<u8>>::empty(),
            r.identities@ == Map::<Seq<u8>, Seq<u8>>::empty(),
            r.uds@ == Map::<Seq<u8>, Seq<u8>>::empty(),
            r.uds_reval@ == Map::<Seq<u8>, Seq<u8>>::empty(),
            r.uds_subscribers@.len() == 0,
            r.uds_reval_subscribers@.len() == 0,
    {
        BcV2Db {
            blocks_meta: Column::new(),
            identities: Column::new(),
            uds: Column::new(),
            uds_reval: Column::new(),
            uds_subscribers: Subscribers::new(),
            uds_reval_subscribers: Subscribers::new(),
        }
    }

    /// Applies the dividend of a block in one transaction over the identities, the
    /// credits and the revaluations: every member is credited, and the dividend is
    /// recorded if it exceeds the one before. Either all of it is committed, and the
    /// subscribers of each column are sent exactly what was committed to it, in
    /// order; or it fails, and nothing has changed.
    pub fn apply_dividend(&mut self, block_number: BlockNumber, dividend: SourceAmount) -> (r:
        KvResult<()>)
        requires
            old(self).wf(),
        ensures
            final(self).wf(),
            final(self).blocks_meta == old(self).blocks_meta,
            final(self).identities == old(self).identities,
            r is Ok == (previous_fault(old(self).uds_reval@, block_number.0) is None
                && valid_identities(old(self).identities@)),
            r is Err ==> create_fails_with(
                old(self).uds_reval@,
                old(self).identities@,
                block_number.0,
                r->Err_0@,
            ),
            r is Err ==> *final(self) == *old(self),
            r is Ok ==> final(self).uds_reval@ == reval_created(
                old(self).uds_reval@,
                block_number.0,
                dividend,
            ),
            r is Ok ==> final(self).uds@ == credited(
                old(self).uds@,
                member_keys(old(self).identities@),
                block_number.0,
            ),
            r is Ok ==> final(self).uds_reval_subscribers@ == published(
                old(self).uds_reval_subscribers@,
                reval_upserts(old(self).uds_reval@, block_number.0, dividend),
            ),
            r is Ok ==> final(self).uds_subscribers@ == published(
                old(self).uds_subscribers@,
                credit_upserts(members_of(old(self).identities.pairs()), block_number.0),
            ),
    {
        let mut identities = TxColRw::begin(&self.identities);
        let mut uds = TxColRw::begin(&self.uds);
        let mut uds_reval = TxColRw::begin(&self.uds_reval);
        proof {
            lemma_scan_of_identities(self.identities.pairs());
        }
        match create_uds(block_number, dividend, &mut identities, &mut uds, &mut uds_reval) {
            Err(e) => Err(e),
            Ok(()) => {
                proof {
                    let found = members_of(self.identities.pairs());
                    lemma_reval_upserts(self.uds_reval@, block_number.0, dividend);
                    lemma_credit_upserts(self.uds@, found, block_number.0);
                    lemma_members_found(self.identities.pairs());
                    assert(Seq::<Mutation>::empty() + credit_upserts(found, block_number.0)
                        =~= credit_upserts(found, block_number.0));
                    assert(Seq::<Mutation>::empty() + reval_upserts(
                        self.uds_reval@,
                        block_number.0,
                        dividend,
                    ) =~= reval_upserts(self.uds_reval@, block_number.0, dividend));
                }
                let committed = uds.commit(&mut self.uds);
                self.uds_subscribers.publish(committed.as_slice());
                let committed = uds_reval.commit(&mut self.uds_reval);
                self.uds_reval_subscribers.publish(committed.as_slice());
                Ok(())
            },
        }
    }

    /// Reverts the dividend of a block in one transaction over the identities, the
    /// credits and the revaluations: the credit of every member at that block is
    /// withdrawn, and the block's revaluation is taken out if it is the last. Either
    /// all of it is committed, and the subscribers of each column are sent exactly
    /// what was committed to it, in order; or it fails, and nothing has changed. It
    /// fails where no revaluation is recorded at all.
    pub fn revert_dividend(&mut self, block_number: BlockNumber) -> (r: KvResult<()>)
        requires
            old(self).wf(),
        ensures
            final(self).wf(),
            final(self).blocks_meta == old(self).blocks_meta,
            final(self).identities == old(self).identities,
            r is Ok == (has_greatest(old(self).uds_reval@) && greatest_key(
                old(self).uds_reval@,
            ).len() == 4 && valid_identities(old(self).identities@)),
            r is Err ==> revert_fails_with(
                old(self).uds_reval@,
                old(self).identities@,
                r->Err_0@,
            ),
            r is Err ==> *final(self) == *old(self),
            r is Ok ==> final(self).uds_reval@ == reval_reverted(
                old(self).uds_reval@,
                block_number.0,
            ),
            r is Ok ==> final(self).uds@ == withdrawn(
                old(self).uds@,
                member_keys(old(self).identities@),
                block_number.0,
            ),
            r is Ok ==> final(self).uds_reval_subscribers@ == published(
                old(self).uds_reval_subscribers@,
                reval_removes(old(self).uds_reval@, block_number.0),
            ),
            r is Ok ==> final(self).uds_subscribers@ == published(
                old(self).uds_subscribers@,
                credit_removes(members_of(old(self).identities.pairs()), block_number.0),
            ),
    {
        let mut identities = TxColRw::begin(&self.identities);
        let mut uds = TxColRw::begin(&self.uds);
        let mut uds_reval = TxColRw::begin(&self.uds_reval);
        proof {
            lemma_scan_of_identities(self.identities.pairs());
        }
        match revert_uds(block_number, &mut identities, &mut uds, &mut uds_reval) {
            Err(e) => Err(e),
            Ok(()) => {
                proof {
                    let found = members_of(self.identities.pairs());
                    lemma_reval_removes(self.uds_reval@, block_number.0);
                    lemma_credit_removes(self.uds@, found, block_number.0);
                    lemma_members_found(self.identities.pairs());
                    assert(Seq::<Mutation>::empty() + credit_removes(found, block_number.0)
                        =~= credit_removes(found, block_number.0));
                    assert(Seq::<Mutation>::empty() + reval_removes(
                        self.uds_reval@,
                        block_number.0,
                    ) =~= reval_removes(self.uds_reval@, block_number.0));
                }
                let committed = uds.commit(&mut self.uds);
                self.uds_subscribers.publish(committed.as_slice());
                let committed = uds_reval.commit(&mut self.uds_reval);
                self.uds_reval_subscribers.publish(committed.as_slice());
                Ok(())
            },
        }
    }
}

} // verus!
