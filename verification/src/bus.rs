//! The change event bus of a column: who subscribed, and the batches of events
//! that each subscriber has yet to take.

use crate::transaction::{duplicate_batch, mutations, Event, Mutation};
use vstd::prelude::*;

verus! {

/// The batches that wait for one subscriber, oldest first; nothing once the
/// subscriber has left.
pub type Outbox = Option<Seq<Seq<Mutation>>>;

/// What the batches of a queue say.
pub open spec fn batches(queue: Seq<Vec<Event>>) -> Seq<Seq<Mutation>> {
    queue.map_values(|b: Vec<Event>| mutations(b@))
}

/// The outbox after a batch was published: the batch waits behind the others. An
/// empty batch is not sent, and nothing is sent to a subscriber who left.
pub open spec fn sent(outbox: Outbox, batch: Seq<Mutation>) -> Outbox {
    match outbox {
        Some(queue) => if batch.len() == 0 {
            Some(queue)
        } else {
            Some(queue.push(batch))
        },
        None => None,
    }
}

/// The outboxes after a batch was published to each.
pub open spec fn published(outboxes: Seq<Outbox>, batch: Seq<Mutation>) -> Seq<Outbox> {
    outboxes.map_values(|o: Outbox| sent(o, batch))
}

/// The outboxes after a sequence of batches was published, in order.
pub open spec fn published_all(outboxes: Seq<Outbox>, committed: Seq<Seq<Mutation>>) -> Seq<
    Outbox,
>
    decreases committed.len(),
{
    if committed.len() == 0 {
        outboxes
    } else {
        published(published_all(outboxes, committed.drop_last()), committed.last())
    }
}

/// The batches of a sequence that are not empty, in order.
pub open spec fn not_empty(committed: Seq<Seq<Mutation>>) -> Seq<Seq<Mutation>>
    decreases committed.len(),
{
    if committed.len() == 0 {
        Seq::empty()
    } else if committed.last().len() == 0 {
        not_empty(committed.drop_last())
    } else {
        not_empty(committed.drop_last()).push(committed.last())
    }
}

/// After a sequence of commits was published, each subscriber has been sent every
/// batch that is not empty exactly once, in the order of the commits, behind what
/// waited before; nobody joined and nobody left.
pub proof fn lemma_every_commit_is_delivered_once(
    outboxes: Seq<Outbox>,
    committed: Seq<Seq<Mutation>>,
)
    ensures
        published_all(outboxes, committed).len() == outboxes.len(),
        forall|id: int|
            0 <= id < outboxes.len() ==> (#[trigger] published_all(outboxes, committed)[id]
                == match outboxes[id] {
                Some(queue) => Some(queue + not_empty(committed)),
                None => None,
            }),
    decreases committed.len(),
{
    if committed.len() == 0 {
        assert forall|id: int| 0 <= id < outboxes.len() implies (#[trigger] published_all(
            outboxes,
            committed,
        )[id] == match outboxes[id] {
            Some(queue) => Some(queue + not_empty(committed)),
            None => None,
        }) by {
            if let Some(queue) = outboxes[id] {
                assert(queue + Seq::<Seq<Mutation>>::empty() =~= queue);
            }
        }
    } else {
        let rest = committed.drop_last();
        lemma_every_commit_is_delivered_once(outboxes, rest);
        assert forall|id: int| 0 <= id < outboxes.len() implies (#[trigger] published_all(
            outboxes,
            committed,
        )[id] == match outboxes[id] {
            Some(queue) => Some(queue + not_empty(committed)),
            None => None,
        }) by {
            let before = published_all(outboxes, rest)[id];
            if let Some(queue) = outboxes[id] {
                assert((queue + not_empty(rest)).push(committed.last()) =~= queue + not_empty(
                    rest,
                ).push(committed.last()));
            }
        }
    }
}

/// The subscribers of a column. A subscriber is known by the number it was
/// given when it subscribed.
pub struct Subscribers {
    outboxes: Vec<Option<Vec<Vec<Event>>>>,
}

impl View for Subscribers {
    type V = Seq<Outbox>;

    /// The outbox of each subscriber, by its number.
    closed spec fn view(&self) -> Seq<Outbox> {
        self.outboxes@.map_values(
            |o: Option<Vec<Vec<Event>>>|
                match o {
                    Some(queue) => Some(batches(queue@)),
                    None => None,
                },
        )
    }
}

impl Subscribers {
    /// No subscriber.
    pub fn new() -> (r: Subscribers)
        ensures
            r@ == Seq::<Outbox>::empty(),
    {
        let r = Subscribers { outboxes: Vec::new() };
        assert(r@ =~= Seq::<Outbox>::empty());
        r
    }

    /// Registers a subscriber and gives it its number. It is sent what is
    /// published from now on, and nothing of what was published before.
    pub fn subscribe(&mut self) -> (id: usize)
        ensures
            id == old(self)@.len(),
            final(self)@ == old(self)@.push(Some(Seq::<Seq<Mutation>>::empty())),
    {
        let id: usize = self.outboxes.len();
        self.outboxes.push(Some(Vec::new()));
        assert(batches(Seq::<Vec<Event>>::empty()) =~= Seq::<Seq<Mutation>>::empty());
        assert(self@ =~= old(self)@.push(Some(Seq::<Seq<Mutation>>::empty())));
        id
    }

    /// Lets a subscriber leave: what waits for it is dropped, and nothing is sent
    /// to it any more. Says whether it was subscribed.
    pub fn unsubscribe(&mut self, id: usize) -> (r: bool)
        ensures
            r == (id < old(self)@.len() && old(self)@[id as int] is Some),
            r ==> final(self)@ == old(self)@.update(id as int, None),
            !r ==> final(self)@ == old(self)@,
    {
        if id < self.outboxes.len() && self.outboxes[id].is_some() {
            self.outboxes[id] = None;
            assert(self@ =~= old(self)@.update(id as int, None));
            true
        } else {
            false
        }
    }

    /// Publishes the batch of one committed transaction: a copy of it is put in
    /// the outbox of every subscriber, behind what waits there. An empty batch is
    /// not sent.
    pub fn publish(&mut self, batch: &[Event])
        ensures
            final(self)@ == published(old(self)@, mutations(batch@)),
    {
        if batch.len() == 0 {
            assert(self@ =~= published(self@, mutations(batch@)));
            return ;
        }
        let ghost before = self@;
        let ghost said = mutations(batch@);
        let mut i: usize = 0;
        while i < self.outboxes.len()
            invariant
                i <= self.outboxes@.len(),
                said == mutations(batch@),
                said.len() > 0,
                self@.len() == before.len(),
                forall|j: int| 0 <= j < i ==> #[trigger] self@[j] == sent(before[j], said),
                forall|j: int| i <= j < before.len() ==> #[trigger] self@[j] == before[j],
            decreases self.outboxes@.len() - i,
        {
            let ghost now = self@;
            let ghost held = self.outboxes@;
            if self.outboxes[i].is_some() {
                let copy = duplicate_batch(batch);
                let ghost queue = self.outboxes@[i as int]->Some_0@;
                match &mut self.outboxes[i] {
                    Some(waiting) => {
                        waiting.push(copy);
                    },
                    None => {},
                }
                proof {
                    assert(self.outboxes@.len() == held.len());
                    assert(self.outboxes@[i as int] is Some);
                    let grown = self.outboxes@[i as int]->Some_0@;
                    assert(grown == queue.push(copy));
                    assert(batches(grown) =~= batches(queue).push(said));
                    assert(self@[i as int] == sent(now[i as int], said));
                    assert forall|j: int| 0 <= j < before.len() && j != i implies #[trigger] self@[j]
                        == now[j] by {
                        assert(self.outboxes@[j] == held[j]);
                    }
                }
            } else {
                assert(self@[i as int] == sent(now[i as int], said));
            }
            i += 1;
        }
        assert(self@ =~= published(before, said));
    }

    /// Takes the oldest batch that waits for a subscriber, if one does.
    pub fn take(&mut self, id: usize) -> (r: Option<Vec<Event>>)
        ensures
            r is Some == (id < old(self)@.len() && old(self)@[id as int] is Some && old(
                self,
            )@[id as int]->Some_0.len() > 0),
            r is Some ==> mutations(r->Some_0@) == old(self)@[id as int]->Some_0.first()
                && final(self)@ == old(self)@.update(
                id as int,
                Some(old(self)@[id as int]->Some_0.drop_first()),
            ),
            r is None ==> final(self)@ == old(self)@,
    {
        if id >= self.outboxes.len() {
            return None;
        }
        let ghost queue = self.outboxes@[id as int];
        match &mut self.outboxes[id] {
            Some(waiting) => {
                if waiting.len() == 0 {
                    None
                } else {
                    let batch = waiting.remove(0);
                    proof {
                        let left = self.outboxes@[id as int]->Some_0@;
                        assert(left == queue->Some_0@.remove(0));
                        assert(batches(left) =~= batches(queue->Some_0@).drop_first());
                        assert(self@ =~= old(self)@.update(
                            id as int,
                            Some(old(self)@[id as int]->Some_0.drop_first()),
                        ));
                    }
                    Some(batch)
                }
            },
            None => None,
        }
    }
}

} // verus!
