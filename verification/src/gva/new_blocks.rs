//! The subscription to new blocks: what a subscriber is sent for a batch of
//! events of the head column.

use crate::errors::{DecodeFault, Failure, KvError, KvResult};
use crate::transaction::{mutations, Event, Mutation};
use crate::values::block_meta::{BlockHash, BlockMetaV2};
use vstd::prelude::*;

verus! {

/// A block as the API shows it.
#[derive(Clone, Copy, Debug, PartialEq, Eq)]
pub struct Block {
    pub number: u32,
    pub hash: BlockHash,
}

impl Block {
    /// The stored metadata that this block shows.
    pub open spec fn meta(&self) -> BlockMetaV2 {
        BlockMetaV2 { number: self.number, hash: self.hash }
    }

    /// The block that shows stored metadata.
    pub fn from_meta(block_meta: &BlockMetaV2) -> (r: Block)
        ensures
            r.meta() == *block_meta,
    {
        Block { number: block_meta.number, hash: block_meta.hash }
    }
}

/// The fields of a block that a subscriber asks for beyond its metadata.
#[derive(Clone, Copy, Debug, PartialEq, Eq, Default)]
pub struct BlockFields {
    pub identities: bool,
    pub joiners: bool,
    pub actives: bool,
    pub leavers: bool,
    pub revoked: bool,
    pub excluded: bool,
    pub certifications: bool,
    pub transactions: bool,
}

/// The values that the upserts of a batch stored, in order.
pub open spec fn upserted(batch: Seq<Mutation>) -> Seq<Seq<u8>>
    decreases batch.len(),
{
    if batch.len() == 0 {
        Seq::empty()
    } else {
        match batch.last() {
            Mutation::Upsert { key, value } => upserted(batch.drop_last()).push(value),
            Mutation::Remove { key } => upserted(batch.drop_last()),
        }
    }
}

/// The stored metadata that each block of a sequence shows.
pub open spec fn shown(blocks: Seq<Block>) -> Seq<Seq<u8>> {
    blocks.map_values(|b: Block| b.meta().encoding())
}

/// The values upserted in the first events of a batch start those of the whole batch.
proof fn lemma_upserted_prefix(batch: Seq<Mutation>, n: int)
    requires
        0 <= n <= batch.len(),
    ensures
        upserted(batch.take(n)).len() <= upserted(batch).len(),
        upserted(batch.take(n)) == upserted(batch).take(upserted(batch.take(n)).len() as int),
    decreases batch.len(),
{
    if n == batch.len() {
        assert(batch.take(n) =~= batch);
        assert(upserted(batch).take(upserted(batch).len() as int) =~= upserted(batch));
    } else {
        let rest = batch.drop_last();
        assert(rest.take(n) =~= batch.take(n));
        lemma_upserted_prefix(rest, n);
        let head = upserted(batch.take(n));
        assert(upserted(batch).take(head.len() as int) =~= upserted(rest).take(head.len() as int));
    }
}

/// The subscription to new blocks.
#[derive(Clone, Copy, Default)]
pub struct NewBlocksSubscription;

impl NewBlocksSubscription {
    /// Whether the metadata of the blocks answer the subscription: whether none of
    /// the fields that only a whole block holds is asked for.
    pub fn meta_only(&self, fields: &BlockFields) -> (r: bool)
        ensures
            r == !(fields.identities || fields.joiners || fields.actives || fields.leavers
                || fields.revoked || fields.excluded || fields.certifications
                || fields.transactions),
    {
        !(fields.identities || fields.joiners || fields.actives || fields.leavers || fields.revoked
            || fields.excluded || fields.certifications || fields.transactions)
    }

    /// What a subscriber is sent for a batch of events of the head column: the
    /// blocks that were upserted, in order, or nothing where none was. The first
    /// upserted value that is no block metadata is an error.
    pub fn new_blocks(&self, events: &[Event]) -> (r: KvResult<Option<Vec<Block>>>)
        ensures
            r is Ok == (forall|i: int|
                0 <= i < upserted(mutations(events@)).len() ==> (#[trigger] upserted(
                    mutations(events@),
                )[i]).len() == 36),
            r is Ok ==> r->Ok_0 is None == (upserted(mutations(events@)).len() == 0),
            r is Ok ==> r->Ok_0 is Some ==> shown(r->Ok_0->Some_0@) == upserted(mutations(events@)),
            r is Err ==> exists|i: int|
                0 <= i < upserted(mutations(events@)).len() && (forall|j: int|
                    0 <= j < i ==> (#[trigger] upserted(mutations(events@))[j]).len() == 36)
                    && r->Err_0@ == (Failure::Corrupted {
                    bytes: upserted(mutations(events@))[i],
                    fault: DecodeFault::InvalidLength {
                        expected: 36,
                        found: upserted(mutations(events@))[i].len() as usize,
                    },
                }),
    {
        let ghost all = mutations(events@);
        let ghost values = upserted(all);
        let mut blocks: Vec<Block> = Vec::new();
        let mut i: usize = 0;
        assert(all.take(0) =~= Seq::<Mutation>::empty());
        assert(shown(blocks@) =~= Seq::<Seq<u8>>::empty());
        while i < events.len()
            invariant
                i <= events@.len(),
                all == mutations(events@),
                values == upserted(all),
                shown(blocks@) == upserted(all.take(i as int)),
            decreases events@.len() - i,
        {
            proof {
                assert(all.take(i + 1).drop_last() =~= all.take(i as int));
                assert(all.take(i + 1).last() == all[i as int]);
                lemma_upserted_prefix(all, i as int);
                lemma_upserted_prefix(all, i + 1);
            }
            if let Event::Upsert { key, value } = &events[i] {
                let ghost at = blocks@.len() as int;
                proof {
                    assert(upserted(all.take(i + 1))[at] == value@);
                    assert(values[at] == value@);
                    assert forall|j: int| 0 <= j < at implies (#[trigger] values[j]).len()
                        == 36 by {
                        assert(values[j] == shown(blocks@)[j]);
                        crate::bytes::lemma_be32_inverse(blocks@[j].number, seq![]);
                    }
                }
                match BlockMetaV2::from_bytes(value.as_slice()) {
                    Ok(block_meta) => {
                        let ghost before = shown(blocks@);
                        blocks.push(Block::from_meta(&block_meta));
                        assert(shown(blocks@) =~= before.push(value@));
                    },
                    Err(c) => {
                        return Err(KvError::CorruptedRecord(c));
                    },
                }
            }
            i += 1;
        }
        proof {
            assert(all.take(i as int) =~= all);
            assert forall|j: int| 0 <= j < values.len() implies (#[trigger] values[j]).len()
                == 36 by {
                assert(values[j] == shown(blocks@)[j]);
                crate::bytes::lemma_be32_inverse(blocks@[j].number, seq![]);
            }
        }
        if blocks.is_empty() {
            Ok(None)
        } else {
            Ok(Some(blocks))
        }
    }
}

} // verus!
