//! The universal dividend of a block: crediting it to every member when the
//! block is applied, and withdrawing it when the block is reverted.

use crate::bytes::{be32, lemma_lex_asymmetric, lex_le, u32_to_be};
use crate::column::{is_greatest, is_greatest_below, Column, Pair};
use crate::errors::{DecodeFault, Failure, KvError, KvResult, Violation};
use crate::keys::block_number::{BlockNumber, U32BE};
use crate::keys::pubkey::{padded_key, PubKeyKeyV2, PublicKey};
use crate::keys::ud_id::{credit_key, UdIdV2};
use crate::transaction::{lemma_replay_push, replay, Mutation, TxColRw};
use crate::values::idty_db::IdtyDbV2;
use crate::values::source_amount::{SourceAmount, SourceAmountValV2};
use vstd::prelude::*;

verus! {

/// Why an entry of the identities column is corrupted, if it is: a key of more
/// than thirty-three bytes, or else a value that is no identity.
pub open spec fn identity_fault(pair: Pair) -> Option<Failure> {
    if pair.0.len() > 33 {
        Some(
            Failure::Corrupted {
                bytes: pair.0,
                fault: DecodeFault::InvalidLength { expected: 33, found: pair.0.len() as usize },
            },
        )
    } else {
        match IdtyDbV2::fault_of(pair.1) {
            Some(fault) => Some(Failure::Corrupted { bytes: pair.1, fault }),
            None => None,
        }
    }
}

/// The corruption that a scan of the identities meets first, if it meets one.
pub open spec fn first_identity_fault(pairs: Seq<Pair>) -> Option<Failure>
    decreases pairs.len(),
{
    if pairs.len() == 0 {
        None
    } else if identity_fault(pairs[0]) is Some {
        identity_fault(pairs[0])
    } else {
        first_identity_fault(pairs.drop_first())
    }
}

/// The public keys of the identities that are members, in the order of the scan.
pub open spec fn members_of(pairs: Seq<Pair>) -> Seq<Seq<u8>>
    decreases pairs.len(),
{
    if pairs.len() == 0 {
        Seq::empty()
    } else if IdtyDbV2::is_member(pairs.last().1) {
        members_of(pairs.drop_last()).push(padded_key(pairs.last().0))
    } else {
        members_of(pairs.drop_last())
    }
}

/// The bytes of each key of a sequence.
pub open spec fn key_bytes(keys: Seq<PublicKey>) -> Seq<Seq<u8>> {
    keys.map_values(|k: PublicKey| k.bytes())
}

/// Whether a revaluation is recorded below the block `number`.
pub open spec fn has_previous(reval: Map<Seq<u8>, Seq<u8>>, number: u32) -> bool {
    exists|k: Seq<u8>| is_greatest_below(reval, be32(number), k)
}

/// The key of the last revaluation below the block `number`.
pub open spec fn previous_key(reval: Map<Seq<u8>, Seq<u8>>, number: u32) -> Seq<u8> {
    choose|k: Seq<u8>| is_greatest_below(reval, be32(number), k)
}

/// Why the last revaluation below the block `number` is corrupted, if it is.
pub open spec fn previous_fault(reval: Map<Seq<u8>, Seq<u8>>, number: u32) -> Option<Failure> {
    let stored = reval[previous_key(reval, number)];
    if has_previous(reval, number) && !SourceAmountValV2::decodable(stored) {
        Some(
            Failure::Corrupted {
                bytes: stored,
                fault: DecodeFault::InvalidLength { expected: 16, found: stored.len() as usize },
            },
        )
    } else {
        None
    }
}

/// The dividend before the block `number`: that of the last revaluation below it,
/// or nothing where none is recorded.
pub open spec fn previous_amount(reval: Map<Seq<u8>, Seq<u8>>, number: u32) -> SourceAmount {
    if has_previous(reval, number) {
        SourceAmountValV2::decoding(reval[previous_key(reval, number)]).0
    } else {
        SourceAmount { amount: 0, base: 0 }
    }
}

/// Whether a revaluation has a greatest key.
pub open spec fn has_greatest(reval: Map<Seq<u8>, Seq<u8>>) -> bool {
    exists|k: Seq<u8>| is_greatest(reval, k)
}

/// The greatest key of the revaluations.
pub open spec fn greatest_key(reval: Map<Seq<u8>, Seq<u8>>) -> Seq<u8> {
    choose|k: Seq<u8>| is_greatest(reval, k)
}

/// Why the dividend of the block `number` cannot be created, if it cannot: the
/// last revaluation below it is corrupted, or else an identity is.
pub open spec fn create_failure(
    reval: Map<Seq<u8>, Seq<u8>>,
    identities: Seq<Pair>,
    number: u32,
) -> Option<Failure> {
    if previous_fault(reval, number) is Some {
        previous_fault(reval, number)
    } else {
        first_identity_fault(identities)
    }
}

/// What creating the dividend writes to the revaluations: the dividend under
/// the block's number if it exceeds the previous one, and nothing otherwise.
pub open spec fn reval_upserts(
    reval: Map<Seq<u8>, Seq<u8>>,
    number: u32,
    dividend: SourceAmount,
) -> Seq<Mutation> {
    if dividend.exceeds(previous_amount(reval, number)) {
        seq![
            Mutation::Upsert { key: be32(number), value: SourceAmountValV2(dividend).encoding() },
        ]
    } else {
        Seq::empty()
    }
}

/// The credit of each member at the block `number`, in order.
pub open spec fn credit_upserts(members: Seq<Seq<u8>>, number: u32) -> Seq<Mutation> {
    members.map_values(
        |pk: Seq<u8>| Mutation::Upsert { key: credit_key(pk, number), value: Seq::empty() },
    )
}

/// Why the dividend of a block cannot be reverted, if it cannot: no revaluation
/// is recorded, or the key of the last one is corrupted, or else an identity is.
pub open spec fn revert_failure(reval: Map<Seq<u8>, Seq<u8>>, identities: Seq<Pair>) -> Option<
    Failure,
> {
    if !has_greatest(reval) {
        Some(Failure::Violated(Violation::EmptyRevalHistory))
    } else if greatest_key(reval).len() != 4 {
        Some(
            Failure::Corrupted {
                bytes: greatest_key(reval),
                fault: DecodeFault::InvalidLength {
                    expected: 4,
                    found: greatest_key(reval).len() as usize,
                },
            },
        )
    } else {
        first_identity_fault(identities)
    }
}

/// What reverting the dividend writes to the revaluations: the removal of the
/// block's entry if it is the last one, and nothing otherwise.
pub open spec fn reval_removes(reval: Map<Seq<u8>, Seq<u8>>, number: u32) -> Seq<Mutation> {
    if greatest_key(reval) == be32(number) {
        seq![Mutation::Remove { key: be32(number) }]
    } else {
        Seq::empty()
    }
}

/// The removal of the credit of each member at the block `number`, in order.
pub open spec fn credit_removes(members: Seq<Seq<u8>>, number: u32) -> Seq<Mutation> {
    members.map_values(|pk: Seq<u8>| Mutation::Remove { key: credit_key(pk, number) })
}

/// A mapping has one greatest key below a bound at most.
pub proof fn lemma_greatest_below_unique(
    m: Map<Seq<u8>, Seq<u8>>,
    bound: Seq<u8>,
    a: Seq<u8>,
    b: Seq<u8>,
)
    requires
        is_greatest_below(m, bound, a),
        is_greatest_below(m, bound, b),
    ensures
        a == b,
{
    if a != b {
        assert(lex_le(a, b) && lex_le(b, a));
        lemma_lex_asymmetric(a, b);
    }
}

/// A mapping has one greatest key at most.
pub proof fn lemma_greatest_unique(m: Map<Seq<u8>, Seq<u8>>, a: Seq<u8>, b: Seq<u8>)
    requires
        is_greatest(m, a),
        is_greatest(m, b),
    ensures
        a == b,
{
    if a != b {
        assert(lex_le(a, b) && lex_le(b, a));
        lemma_lex_asymmetric(a, b);
    }
}

/// A scan that met no corruption in a prefix meets what the rest holds.
proof fn lemma_first_fault_skip(pairs: Seq<Pair>, n: int)
    requires
        0 <= n <= pairs.len(),
        forall|j: int| 0 <= j < n ==> identity_fault(#[trigger] pairs[j]) is None,
    ensures
        first_identity_fault(pairs) == first_identity_fault(pairs.skip(n)),
    decreases n,
{
    if n == 0 {
        assert(pairs.skip(0) =~= pairs);
    } else {
        let rest = pairs.drop_first();
        assert(identity_fault(pairs[0]) is None);
        assert forall|j: int| 0 <= j < n - 1 implies identity_fault(#[trigger] rest[j]) is None by {
            assert(rest[j] == pairs[j + 1]);
        }
        lemma_first_fault_skip(rest, n - 1);
        assert(rest.skip(n - 1) =~= pairs.skip(n));
    }
}

/// The dividend before the block `block_number`, as the revaluations record it.
pub fn previous_ud_amount(uds_reval: &Column, block_number: BlockNumber) -> (r: KvResult<
    SourceAmount,
>)
    requires
        uds_reval.wf(),
    ensures
        r is Ok == previous_fault(uds_reval@, block_number.0) is None,
        r is Ok ==> r->Ok_0 == previous_amount(uds_reval@, block_number.0),
        r is Err ==> Some(r->Err_0@) == previous_fault(uds_reval@, block_number.0),
{
    let bound = u32_to_be(block_number.0);
    match uds_reval.last_below(bound.as_slice()) {
        None => {
            proof {
                if has_previous(uds_reval@, block_number.0) {
                    let k = previous_key(uds_reval@, block_number.0);
                    assert(uds_reval@.contains_key(k));
                }
            }
            Ok(SourceAmount::zero())
        },
        Some((key, value)) => {
            proof {
                assert(is_greatest_below(uds_reval@, bound@, key@));
                lemma_greatest_below_unique(
                    uds_reval@,
                    bound@,
                    key@,
                    previous_key(uds_reval@, block_number.0),
                );
            }
            match SourceAmountValV2::from_bytes(value.as_slice()) {
                Ok(amount) => Ok(amount.0),
                Err(c) => Err(KvError::CorruptedRecord(c)),
            }
        },
    }
}

/// The public keys of the members, in the order of their stored keys.
pub fn members(identities: &Column) -> (r: KvResult<Vec<PublicKey>>)
    requires
        identities.wf(),
    ensures
        r is Ok == first_identity_fault(identities.pairs()) is None,
        r is Ok ==> key_bytes(r->Ok_0@) == members_of(identities.pairs()),
        r is Err ==> Some(r->Err_0@) == first_identity_fault(identities.pairs()),
{
    let ghost pairs = identities.pairs();
    let mut found: Vec<PublicKey> = Vec::new();
    let n: usize = identities.len();
    let mut i: usize = 0;
    assert(pairs.take(0) =~= Seq::<Pair>::empty());
    assert(key_bytes(found@) =~= Seq::<Seq<u8>>::empty());
    while i < n
        invariant
            i <= n,
            n == pairs.len(),
            pairs == identities.pairs(),
            forall|j: int| 0 <= j < i ==> identity_fault(#[trigger] pairs[j]) is None,
            key_bytes(found@) == members_of(pairs.take(i as int)),
        decreases n - i,
    {
        let (key, value) = match identities.entry(i) {
            Some(entry) => entry,
            None => vstd::pervasive::unreached(),
        };
        proof {
            lemma_first_fault_skip(pairs, i as int);
            assert(pairs.skip(i as int)[0] == pairs[i as int]);
            assert(pairs.take(i + 1).drop_last() =~= pairs.take(i as int));
            assert(pairs.take(i + 1).last() == pairs[i as int]);
        }
        let pubkey = match PubKeyKeyV2::from_bytes(key.as_slice()) {
            Ok(k) => k.0,
            Err(c) => {
                return Err(KvError::CorruptedRecord(c));
            },
        };
        let member = match IdtyDbV2::member_flag(value.as_slice()) {
            Ok(m) => m,
            Err(c) => {
                return Err(KvError::CorruptedRecord(c));
            },
        };
        if member {
            let ghost before = key_bytes(found@);
            found.push(pubkey);
            assert(key_bytes(found@) =~= before.push(pubkey.bytes()));
        }
        i += 1;
    }
    proof {
        lemma_first_fault_skip(pairs, n as int);
        assert(pairs.take(n as int) =~= pairs);
    }
    Ok(found)
}

/// Credits the dividend of the block `block_number` to every member, and records
/// the dividend under the block's number if it exceeds the one before. Nothing
/// is written where a record that has to be read is corrupted.
pub fn create_uds(
    block_number: BlockNumber,
    dividend: SourceAmount,
    identities: &mut TxColRw,
    uds: &mut TxColRw,
    uds_reval: &mut TxColRw,
) -> (r: KvResult<()>)
    requires
        old(identities).wf(),
        old(uds).wf(),
        old(uds_reval).wf(),
    ensures
        final(identities).wf(),
        final(uds).wf(),
        final(uds_reval).wf(),
        *final(identities) == *old(identities),
        final(uds).base() == old(uds).base(),
        final(uds_reval).base() == old(uds_reval).base(),
        r is Ok == create_failure(old(uds_reval)@, old(identities).pairs(), block_number.0)
            is None,
        r is Err ==> Some(r->Err_0@) == create_failure(
            old(uds_reval)@,
            old(identities).pairs(),
            block_number.0,
        ),
        r is Err ==> *final(uds) == *old(uds) && *final(uds_reval) == *old(uds_reval),
        r is Ok ==> final(uds_reval).events() == old(uds_reval).events() + reval_upserts(
            old(uds_reval)@,
            block_number.0,
            dividend,
        ),
        r is Ok ==> final(uds_reval)@ == replay(
            old(uds_reval)@,
            reval_upserts(old(uds_reval)@, block_number.0, dividend),
        ),
        r is Ok ==> final(uds).events() == old(uds).events() + credit_upserts(
            members_of(old(identities).pairs()),
            block_number.0,
        ),
        r is Ok ==> final(uds)@ == replay(
            old(uds)@,
            credit_upserts(members_of(old(identities).pairs()), block_number.0),
        ),
{
    let previous_ud_amount = match previous_ud_amount(uds_reval.col(), block_number) {
        Ok(amount) => amount,
        Err(e) => {
            return Err(e);
        },
    };
    let members = match members(identities.col()) {
        Ok(found) => found,
        Err(e) => {
            return Err(e);
        },
    };
    let ghost reval_before = uds_reval@;
    let ghost reval_events = uds_reval.events();
    if dividend.gt(&previous_ud_amount) {
        proof {
            let e = Mutation::Upsert {
                key: be32(block_number.0),
                value: SourceAmountValV2(dividend).encoding(),
            };
            assert(Seq::<Mutation>::empty().push(e) =~= seq![e]);
            lemma_replay_push(reval_before, Seq::empty(), e);
            assert(reval_events + seq![e] =~= reval_events.push(e));
        }
        uds_reval.upsert(U32BE(block_number.0).as_bytes(), SourceAmountValV2(dividend).as_bytes());
    } else {
        assert(reval_events + Seq::<Mutation>::empty() =~= reval_events);
    }
    let ghost credited = key_bytes(members@);
    let ghost uds_before = uds@;
    let ghost uds_events = uds.events();
    let mut i: usize = 0;
    proof {
        assert(credit_upserts(credited.take(0), block_number.0) =~= Seq::<Mutation>::empty());
        assert(uds_events + Seq::<Mutation>::empty() =~= uds_events);
    }
    while i < members.len()
        invariant
            i <= members@.len(),
            credited == key_bytes(members@),
            uds.wf(),
            uds.base() == old(uds).base(),
            uds.events() == uds_events + credit_upserts(credited.take(i as int), block_number.0),
            uds@ == replay(uds_before, credit_upserts(credited.take(i as int), block_number.0)),
        decreases members@.len() - i,
    {
        proof {
            let done = credit_upserts(credited.take(i as int), block_number.0);
            let e = Mutation::Upsert {
                key: credit_key(credited[i as int], block_number.0),
                value: Seq::empty(),
            };
            assert(credit_upserts(credited.take(i + 1), block_number.0) =~= done.push(e));
            lemma_replay_push(uds_before, done, e);
            assert((uds_events + done).push(e) =~= uds_events + done.push(e));
        }
        uds.upsert(UdIdV2(members[i], block_number).as_bytes(), Vec::new());
        i += 1;
    }
    assert(credited.take(i as int) =~= credited);
    Ok(())
}

/// Withdraws the dividend of the block `block_number` from every member, and
/// takes the block's revaluation out if it is the last one recorded. Fails where
/// no revaluation is recorded at all, and writes nothing where it fails.
pub fn revert_uds(
    block_number: BlockNumber,
    identities: &mut TxColRw,
    uds: &mut TxColRw,
    uds_reval: &mut TxColRw,
) -> (r: KvResult<()>)
    requires
        old(identities).wf(),
        old(uds).wf(),
        old(uds_reval).wf(),
    ensures
        final(identities).wf(),
        final(uds).wf(),
        final(uds_reval).wf(),
        *final(identities) == *old(identities),
        final(uds).base() == old(uds).base(),
        final(uds_reval).base() == old(uds_reval).base(),
        r is Ok == revert_failure(old(uds_reval)@, old(identities).pairs()) is None,
        r is Err ==> Some(r->Err_0@) == revert_failure(old(uds_reval)@, old(identities).pairs()),
        r is Err ==> *final(uds) == *old(uds) && *final(uds_reval) == *old(uds_reval),
        r is Ok ==> final(uds_reval).events() == old(uds_reval).events() + reval_removes(
            old(uds_reval)@,
            block_number.0,
        ),
        r is Ok ==> final(uds_reval)@ == replay(
            old(uds_reval)@,
            reval_removes(old(uds_reval)@, block_number.0),
        ),
        r is Ok ==> final(uds).events() == old(uds).events() + credit_removes(
            members_of(old(identities).pairs()),
            block_number.0,
        ),
        r is Ok ==> final(uds)@ == replay(
            old(uds)@,
            credit_removes(members_of(old(identities).pairs()), block_number.0),
        ),
{
    let ghost reval_before = uds_reval@;
    let ghost reval_events = uds_reval.events();
    let previous_reval_block_number = match uds_reval.col().last() {
        None => {
            proof {
                if has_greatest(reval_before) {
                    assert(reval_before.contains_key(greatest_key(reval_before)));
                }
            }
            return Err(KvError::InvariantViolation(Violation::EmptyRevalHistory));
        },
        Some((key, _)) => {
            proof {
                assert(is_greatest(reval_before, key@));
                lemma_greatest_unique(reval_before, key@, greatest_key(reval_before));
            }
            match U32BE::from_bytes(key.as_slice()) {
                Ok(number) => number.0,
                Err(c) => {
                    return Err(KvError::CorruptedRecord(c));
                },
            }
        },
    };
    let members = match members(identities.col()) {
        Ok(found) => found,
        Err(e) => {
            return Err(e);
        },
    };
    proof {
        crate::bytes::lemma_be32_order(block_number.0, previous_reval_block_number);
    }
    if block_number.0 == previous_reval_block_number {
        proof {
            let e = Mutation::Remove { key: be32(block_number.0) };
            assert(Seq::<Mutation>::empty().push(e) =~= seq![e]);
            lemma_replay_push(reval_before, Seq::empty(), e);
            assert(reval_events + seq![e] =~= reval_events.push(e));
        }
        uds_reval.remove(U32BE(block_number.0).as_bytes().as_slice());
    } else {
        assert(reval_events + Seq::<Mutation>::empty() =~= reval_events);
    }
    let ghost credited = key_bytes(members@);
    let ghost uds_before = uds@;
    let ghost uds_events = uds.events();
    let mut i: usize = 0;
    proof {
        assert(credit_removes(credited.take(0), block_number.0) =~= Seq::<Mutation>::empty());
        assert(uds_events + Seq::<Mutation>::empty() =~= uds_events);
    }
    while i < members.len()
        invariant
            i <= members@.len(),
            credited == key_bytes(members@),
            uds.wf(),
            uds.base() == old(uds).base(),
            uds.events() == uds_events + credit_removes(credited.take(i as int), block_number.0),
            uds@ == replay(uds_before, credit_removes(credited.take(i as int), block_number.0)),
        decreases members@.len() - i,
    {
        proof {
            let done = credit_removes(credited.take(i as int), block_number.0);
            let e = Mutation::Remove { key: credit_key(credited[i as int], block_number.0) };
            assert(credit_removes(credited.take(i + 1), block_number.0) =~= done.push(e));
            lemma_replay_push(uds_before, done, e);
            assert((uds_events + done).push(e) =~= uds_events + done.push(e));
        }
        uds.remove(UdIdV2(members[i], block_number).as_bytes().as_slice());
        i += 1;
    }
    assert(credited.take(i as int) =~= credited);
    Ok(())
}

} // verus!
