//! Write transactions on a column, and the events that record what they did.

use crate::column::{keys_increase, map_of, Column, Pair};
use vstd::prelude::*;
use vstd::slice::slice_to_vec;

verus! {

/// One mutation of a column, as a subscriber receives it.
#[derive(Debug)]
pub enum Event {
    /// `value` was stored under `key`.
    Upsert { key: Vec<u8>, value: Vec<u8> },
    /// The entry under `key` was taken out.
    Remove { key: Vec<u8> },
}

/// What an event says, as plain byte strings.
pub enum Mutation {
    Upsert { key: Seq<u8>, value: Seq<u8> },
    Remove { key: Seq<u8> },
}

impl View for Event {
    type V = Mutation;

    open spec fn view(&self) -> Mutation {
        match self {
            Event::Upsert { key, value } => Mutation::Upsert { key: key@, value: value@ },
            Event::Remove { key } => Mutation::Remove { key: key@ },
        }
    }
}

impl Event {
    /// A copy of the event.
    pub fn duplicate(&self) -> (r: Event)
        ensures
            r@ == self@,
    {
        match self {
            Event::Upsert { key, value } => Event::Upsert {
                key: slice_to_vec(key.as_slice()),
                value: slice_to_vec(value.as_slice()),
            },
            Event::Remove { key } => Event::Remove { key: slice_to_vec(key.as_slice()) },
        }
    }
}

/// A copy of a batch of events.
pub fn duplicate_batch(batch: &[Event]) -> (r: Vec<Event>)
    ensures
        mutations(r@) == mutations(batch@),
{
    let mut r: Vec<Event> = Vec::new();
    let mut i: usize = 0;
    while i < batch.len()
        invariant
            i <= batch@.len(),
            r@.len() == i,
            forall|j: int| 0 <= j < i ==> (#[trigger] r@[j])@ == batch@[j]@,
        decreases batch@.len() - i,
    {
        r.push(batch[i].duplicate());
        i += 1;
    }
    assert(mutations(r@) =~= mutations(batch@));
    r
}

/// What a batch of events says, in order.
pub open spec fn mutations(events: Seq<Event>) -> Seq<Mutation> {
    events.map_values(|e: Event| e@)
}

/// The mapping after one mutation.
pub open spec fn mutate(m: Map<Seq<u8>, Seq<u8>>, e: Mutation) -> Map<Seq<u8>, Seq<u8>> {
    match e {
        Mutation::Upsert { key, value } => m.insert(key, value),
        Mutation::Remove { key } => m.remove(key),
    }
}

/// The mapping after a batch of mutations, taken in order.
pub open spec fn replay(m: Map<Seq<u8>, Seq<u8>>, es: Seq<Mutation>) -> Map<Seq<u8>, Seq<u8>>
    decreases es.len(),
{
    if es.len() == 0 {
        m
    } else {
        mutate(replay(m, es.drop_last()), es.last())
    }
}

/// Replaying a batch with one more mutation is replaying the batch, then that mutation.
pub proof fn lemma_replay_push(m: Map<Seq<u8>, Seq<u8>>, es: Seq<Mutation>, e: Mutation)
    ensures
        replay(m, es.push(e)) == mutate(replay(m, es), e),
{
    assert(es.push(e).drop_last() =~= es);
}

/// A write transaction on one column: it sees its own writes, and records
/// each of them as an event until it is committed or dropped.
pub struct TxColRw {
    current: Column,
    events: Vec<Event>,
    base: Ghost<Map<Seq<u8>, Seq<u8>>>,
}

impl View for TxColRw {
    type V = Map<Seq<u8>, Seq<u8>>;

    /// The mapping that the transaction sees: the column it began on, with its own writes.
    closed spec fn view(&self) -> Map<Seq<u8>, Seq<u8>> {
        self.current@
    }
}

impl TxColRw {
    /// The pairs that the transaction sees, in the order of iteration.
    pub closed spec fn pairs(&self) -> Seq<Pair> {
        self.current.pairs()
    }

    /// The mutations made so far, in order.
    pub closed spec fn events(&self) -> Seq<Mutation> {
        mutations(self.events@)
    }

    /// The mapping that the transaction began on.
    pub closed spec fn base(&self) -> Map<Seq<u8>, Seq<u8>> {
        self.base@
    }

    /// The transaction's invariant: what it sees is what it began on with its mutations replayed.
    pub closed spec fn wf(&self) -> bool {
        &&& self.current.wf()
        &&& self.current@ == replay(self.base@, mutations(self.events@))
    }

    /// What a well-formed transaction sees is its base with its mutations replayed,
    /// and is the mapping of its pairs, whose keys increase.
    pub proof fn lemma_view(&self)
        requires
            self.wf(),
        ensures
            self@ == replay(self.base(), self.events()),
            self@ == map_of(self.pairs()),
            keys_increase(self.pairs()),
    {
    }

    /// Begins a transaction on the column as it stands.
    pub fn begin(col: &Column) -> (tx: TxColRw)
        requires
            col.wf(),
        ensures
            tx.wf(),
            tx@ == col@,
            tx.pairs() == col.pairs(),
            tx.base() == col@,
            tx.events() == Seq::<Mutation>::empty(),
    {
        let tx = TxColRw { current: col.snapshot(), events: Vec::new(), base: Ghost(col@) };
        assert(mutations(tx.events@) =~= Seq::<Mutation>::empty());
        tx
    }

    /// The column as the transaction sees it, for reading.
    pub fn col(&self) -> (c: &Column)
        requires
            self.wf(),
        ensures
            c.wf(),
            c@ == self@,
            c.pairs() == self.pairs(),
    {
        &self.current
    }

    /// Stores `value` under `key` and records the mutation.
    pub fn upsert(&mut self, key: Vec<u8>, value: Vec<u8>)
        requires
            old(self).wf(),
        ensures
            final(self).wf(),
            final(self)@ == old(self)@.insert(key@, value@),
            final(self).events() == old(self).events().push(
                Mutation::Upsert { key: key@, value: value@ },
            ),
            final(self).base() == old(self).base(),
    {
        let event = Event::Upsert {
            key: slice_to_vec(key.as_slice()),
            value: slice_to_vec(value.as_slice()),
        };
        proof {
            lemma_replay_push(self.base@, mutations(self.events@), event@);
        }
        let ghost before = mutations(self.events@);
        self.events.push(event);
        assert(mutations(self.events@) =~= before.push(event@));
        self.current.upsert(key, value);
    }

    /// Takes out the entry under `key`, if there is one, and records the mutation.
    pub fn remove(&mut self, key: &[u8])
        requires
            old(self).wf(),
        ensures
            final(self).wf(),
            final(self)@ == old(self)@.remove(key@),
            final(self).events() == old(self).events().push(Mutation::Remove { key: key@ }),
            final(self).base() == old(self).base(),
    {
        let event = Event::Remove { key: slice_to_vec(key) };
        proof {
            lemma_replay_push(self.base@, mutations(self.events@), event@);
        }
        let ghost before = mutations(self.events@);
        self.events.push(event);
        assert(mutations(self.events@) =~= before.push(event@));
        self.current.remove(key);
    }

    /// Commits the transaction to `col`: replays its mutations there in order, and
    /// hands out the batch of events that says exactly what was committed.
    pub fn commit(self, col: &mut Column) -> (batch: Vec<Event>)
        requires
            self.wf(),
            old(col).wf(),
        ensures
            final(col).wf(),
            mutations(batch@) == self.events(),
            final(col)@ == replay(old(col)@, self.events()),
            self.base() == old(col)@ ==> final(col)@ == self@,
    {
        let ghost all = mutations(self.events@);
        let ghost start = col@;
        let mut i: usize = 0;
        assert(all.take(0) =~= Seq::<Mutation>::empty());
        while i < self.events.len()
            invariant
                i <= self.events@.len(),
                all == mutations(self.events@),
                col.wf(),
                col@ == replay(start, all.take(i as int)),
            decreases self.events@.len() - i,
        {
            proof {
                lemma_replay_push(start, all.take(i as int), all[i as int]);
                assert(all.take(i as int).push(all[i as int]) =~= all.take(i + 1));
            }
            match &self.events[i] {
                Event::Upsert { key, value } => {
                    col.upsert(slice_to_vec(key.as_slice()), slice_to_vec(value.as_slice()));
                },
                Event::Remove { key } => {
                    col.remove(key.as_slice());
                },
            }
            i += 1;
        }
        assert(all.take(i as int) =~= all);
        self.events
    }
}

} // verus!
