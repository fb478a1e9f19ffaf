//! The accessor of the current head of the chain: a cached snapshot that only
//! the events of the head column refresh.

use crate::errors::{DecodeFault, Failure, KvError, KvResult};
use crate::transaction::{mutations, Event, Mutation};
use crate::values::block_meta::BlockMetaV2;
use vstd::prelude::*;

verus! {

/// What is known of the head of the chain.
#[derive(Clone, Copy, Debug, PartialEq, Eq, Default)]
pub struct CurrentMeta {
    pub current_block_meta: BlockMetaV2,
}

/// The value that the last upsert of a batch stored, if the batch holds an upsert.
pub open spec fn last_upsert(batch: Seq<Mutation>) -> Option<Seq<u8>>
    decreases batch.len(),
{
    if batch.len() == 0 {
        None
    } else {
        match batch.last() {
            Mutation::Upsert { key, value } => Some(value),
            Mutation::Remove { key } => last_upsert(batch.drop_last()),
        }
    }
}

/// The cached head of the chain. It is empty until a block is observed.
pub struct CmAccessor {
    current: Option<CurrentMeta>,
}

impl View for CmAccessor {
    type V = Option<CurrentMeta>;

    closed spec fn view(&self) -> Option<CurrentMeta> {
        self.current
    }
}

impl CmAccessor {
    /// An accessor that has observed nothing yet.
    pub fn new() -> (r: CmAccessor)
        ensures
            r@ is None,
    {
        CmAccessor { current: None }
    }

    /// Observes a batch of events of the head column: the last block upserted
    /// becomes the cached head. A batch without an upsert changes nothing, and
    /// neither does one whose last upsert is corrupted, which is an error.
    pub fn refresh(&mut self, batch: &[Event]) -> (r: KvResult<()>)
        ensures
            last_upsert(mutations(batch@)) is None ==> r is Ok && final(self)@ == old(self)@,
            last_upsert(mutations(batch@)) is Some ==> (r is Ok == (last_upsert(
                mutations(batch@),
            )->Some_0.len() == 36)),
            last_upsert(mutations(batch@)) is Some && r is Ok ==> final(self)@ is Some
                && final(self)@->Some_0.current_block_meta.encoding() == last_upsert(
                mutations(batch@),
            )->Some_0,
            last_upsert(mutations(batch@)) is Some && r is Err ==> final(self)@ == old(self)@
                && r->Err_0@ == (Failure::Corrupted {
                bytes: last_upsert(mutations(batch@))->Some_0,
                fault: DecodeFault::InvalidLength {
                    expected: 36,
                    found: last_upsert(mutations(batch@))->Some_0.len() as usize,
                },
            }),
    {
        let ghost all = mutations(batch@);
        let mut i: usize = batch.len();
        assert(all.take(i as int) =~= all);
        while i > 0
            invariant
                i <= batch@.len(),
                all == mutations(batch@),
                last_upsert(all) == last_upsert(all.take(i as int)),
                self@ == old(self)@,
            decreases i,
        {
            i -= 1;
            proof {
                assert(all.take(i + 1).drop_last() =~= all.take(i as int));
                assert(all.take(i + 1).last() == batch@[i as int]@);
            }
            match &batch[i] {
                Event::Upsert { key, value } => {
                    assert(last_upsert(all) == Some(value@));
                    return match BlockMetaV2::from_bytes(value.as_slice()) {
                        Ok(meta) => {
                            self.current = Some(CurrentMeta { current_block_meta: meta });
                            Ok(())
                        },
                        Err(c) => Err(KvError::CorruptedRecord(c)),
                    };
                },
                Event::Remove { key } => {},
            }
        }
        assert(all.take(0) =~= Seq::<Mutation>::empty());
        Ok(())
    }

    /// What `f` reads from the cached head, if a head is known.
    pub fn get_current_meta<T, F: FnOnce(&CurrentMeta) -> T>(&self, f: F) -> (r: Option<T>)
        requires
            self@ is Some ==> call_requires(f, (&self@->Some_0,)),
        ensures
            r is Some == self@ is Some,
            r is Some ==> call_ensures(f, (&self@->Some_0,), r->Some_0),
    {
        match &self.current {
            Some(cm) => Some(f(cm)),
            None => None,
        }
    }

    /// The number of the current block, if a head is known.
    pub fn current_block_number(&self) -> (r: Option<u32>)
        ensures
            r is Some == self@ is Some,
            r is Some ==> r->Some_0 == self@->Some_0.current_block_meta.number,
    {
        match &self.current {
            Some(cm) => Some(cm.current_block_meta.number),
            None => None,
        }
    }
}

} // verus!
