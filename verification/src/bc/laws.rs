//! What holds of the dividend's write operations, stated over the mappings
//! that the columns hold.

use crate::bc::uds::{
    credit_removes, credit_upserts, first_identity_fault, greatest_key, has_greatest,
    has_previous, identity_fault, lemma_greatest_below_unique, lemma_greatest_unique, members_of,
    previous_amount, previous_fault, previous_key, reval_removes, reval_upserts,
};
use crate::bytes::{
    be32, lemma_be32_inverse, lemma_lex_asymmetric, lemma_lex_irreflexive, lex_le, lex_lt,
};
use crate::column::{
    is_greatest, is_greatest_below, keys_increase, lemma_map_of_rank, lemma_map_of_remove, map_of,
    Column, Pair,
};
use crate::errors::{DecodeFault, Failure, Violation};
use crate::keys::pubkey::padded_key;
use crate::keys::ud_id::{credit_key, lemma_credit_key_injective};
use crate::transaction::{replay, Mutation};
use crate::values::idty_db::IdtyDbV2;
use crate::values::source_amount::{lemma_amount_round_trip, SourceAmount, SourceAmountValV2};
use vstd::prelude::*;

verus! {

/// The public keys of the members: of each identity whose record says so.
pub open spec fn member_keys(identities: Map<Seq<u8>, Seq<u8>>) -> Set<Seq<u8>> {
    Set::new(
        |pk: Seq<u8>|
            exists|k: Seq<u8>|
                #[trigger] identities.contains_key(k) && IdtyDbV2::is_member(identities[k])
                    && padded_key(k) == pk,
    )
}

/// The stored keys of the credits of `who` at the block `number`.
pub open spec fn credit_keys(who: Set<Seq<u8>>, number: u32) -> Set<Seq<u8>> {
    Set::new(
        |k: Seq<u8>| exists|pk: Seq<u8>| who.contains(pk) && k == #[trigger] credit_key(pk, number),
    )
}

/// The credits after each of `who` was credited at the block `number`.
pub open spec fn credited(uds: Map<Seq<u8>, Seq<u8>>, who: Set<Seq<u8>>, number: u32) -> Map<
    Seq<u8>,
    Seq<u8>,
> {
    Map::new(
        |k: Seq<u8>| uds.contains_key(k) || credit_keys(who, number).contains(k),
        |k: Seq<u8>|
            if credit_keys(who, number).contains(k) {
                Seq::empty()
            } else {
                uds[k]
            },
    )
}

/// The credits after the credit of each of `who` at the block `number` was withdrawn.
pub open spec fn withdrawn(uds: Map<Seq<u8>, Seq<u8>>, who: Set<Seq<u8>>, number: u32) -> Map<
    Seq<u8>,
    Seq<u8>,
> {
    uds.remove_keys(credit_keys(who, number))
}

/// Who is credited at the block `number`: each public key of thirty-three bytes
/// under which the credits hold an entry for that block.
pub open spec fn credits_at(uds: Map<Seq<u8>, Seq<u8>>, number: u32) -> Set<Seq<u8>> {
    Set::new(|pk: Seq<u8>| pk.len() == 33 && uds.contains_key(credit_key(pk, number)))
}

/// The revaluations after the dividend `dividend` of the block `number` was created.
pub open spec fn reval_created(
    reval: Map<Seq<u8>, Seq<u8>>,
    number: u32,
    dividend: SourceAmount,
) -> Map<Seq<u8>, Seq<u8>> {
    if dividend.exceeds(previous_amount(reval, number)) {
        reval.insert(be32(number), SourceAmountValV2(dividend).encoding())
    } else {
        reval
    }
}

/// The revaluations after the dividend of the block `number` was reverted.
pub open spec fn reval_reverted(reval: Map<Seq<u8>, Seq<u8>>, number: u32) -> Map<
    Seq<u8>,
    Seq<u8>,
> {
    if greatest_key(reval) == be32(number) {
        reval.remove(be32(number))
    } else {
        reval
    }
}

/// Every revaluation is stored under four bytes, and is sixteen bytes itself.
pub open spec fn valid_revals(reval: Map<Seq<u8>, Seq<u8>>) -> bool {
    forall|k: Seq<u8>| #[trigger]
        reval.contains_key(k) ==> k.len() == 4 && SourceAmountValV2::decodable(reval[k])
}

/// Every identity is stored under at most thirty-three bytes.
pub open spec fn valid_identity_keys(identities: Map<Seq<u8>, Seq<u8>>) -> bool {
    forall|k: Seq<u8>| #[trigger] identities.contains_key(k) ==> k.len() <= 33
}

/// No identity is corrupted: each is stored under at most thirty-three bytes, and
/// each record is an identity.
pub open spec fn valid_identities(identities: Map<Seq<u8>, Seq<u8>>) -> bool {
    forall|k: Seq<u8>| #[trigger]
        identities.contains_key(k) ==> identity_fault((k, identities[k])) is None
}

/// The identity under `k` is corrupted, and none under a lesser key is: a scan
/// meets this one first.
pub open spec fn first_corrupted(identities: Map<Seq<u8>, Seq<u8>>, k: Seq<u8>) -> bool {
    &&& identities.contains_key(k)
    &&& identity_fault((k, identities[k])) is Some
    &&& forall|q: Seq<u8>| #[trigger]
        identities.contains_key(q) && lex_lt(q, k) ==> identity_fault((q, identities[q])) is None
}

/// The failure is the corruption of the first corrupted identity.
pub open spec fn identities_fail_with(
    identities: Map<Seq<u8>, Seq<u8>>,
    failure: Failure,
) -> bool {
    exists|k: Seq<u8>| #[trigger]
        first_corrupted(identities, k) && identity_fault((k, identities[k])) == Some(failure)
}

/// Creating the dividend of the block `number` fails with `failure`: the last
/// revaluation below the block is corrupted, or else an identity is.
pub open spec fn create_fails_with(
    reval: Map<Seq<u8>, Seq<u8>>,
    identities: Map<Seq<u8>, Seq<u8>>,
    number: u32,
    failure: Failure,
) -> bool {
    if previous_fault(reval, number) is Some {
        previous_fault(reval, number) == Some(failure)
    } else {
        identities_fail_with(identities, failure)
    }
}

/// Reverting a dividend fails with `failure`: no revaluation is recorded, or the
/// key of the last one is corrupted, or else an identity is.
pub open spec fn revert_fails_with(
    reval: Map<Seq<u8>, Seq<u8>>,
    identities: Map<Seq<u8>, Seq<u8>>,
    failure: Failure,
) -> bool {
    if !has_greatest(reval) {
        failure == Failure::Violated(Violation::EmptyRevalHistory)
    } else if greatest_key(reval).len() != 4 {
        failure == (Failure::Corrupted {
            bytes: greatest_key(reval),
            fault: DecodeFault::InvalidLength {
                expected: 4,
                found: greatest_key(reval).len() as usize,
            },
        })
    } else {
        identities_fail_with(identities, failure)
    }
}

/// What a scan of the identities meets is what the identities hold: it meets no
/// corruption where none is corrupted, and otherwise that of the least key.
pub proof fn lemma_scan_of_identities(pairs: Seq<Pair>)
    requires
        keys_increase(pairs),
    ensures
        first_identity_fault(pairs) is None <==> valid_identities(map_of(pairs)),
        first_identity_fault(pairs) is Some ==> identities_fail_with(
            map_of(pairs),
            first_identity_fault(pairs)->Some_0,
        ),
    decreases pairs.len(),
{
    let m = map_of(pairs);
    if pairs.len() == 0 {
        assert forall|k: Seq<u8>| !m.contains_key(k) by {
            if m.contains_key(k) {
                let r = crate::column::rank_of(pairs, k);
            }
        }
    } else {
        let rest = pairs.drop_first();
        let m0 = map_of(rest);
        assert(pairs.remove(0) =~= rest);
        lemma_map_of_remove(pairs, 0);
        lemma_map_of_rank(pairs, 0);
        lemma_scan_of_identities(rest);
        let head = pairs[0];
        assert forall|q: Seq<u8>| m0.contains_key(q) implies m.contains_key(q) && m[q] == m0[q]
            && lex_lt(head.0, q) by {
            let r = crate::column::rank_of(rest, q);
            assert(rest[r] == pairs[r + 1]);
            assert(lex_lt(pairs[0].0, pairs[r + 1].0));
        }
        if identity_fault(head) is Some {
            assert forall|q: Seq<u8>| #[trigger] m.contains_key(q) && lex_lt(q, head.0) implies false by {
                if q == head.0 {
                    lemma_lex_irreflexive(q);
                } else {
                    assert(m0.contains_key(q));
                    lemma_lex_asymmetric(q, head.0);
                }
            }
            assert(first_corrupted(m, head.0));
        } else {
            if first_identity_fault(rest) is Some {
                let k = choose|k: Seq<u8>| #[trigger]
                    first_corrupted(m0, k) && identity_fault((k, m0[k])) == first_identity_fault(
                        rest,
                    );
                assert(m.contains_key(k) && m[k] == m0[k]);
                assert forall|q: Seq<u8>| #[trigger]
                    m.contains_key(q) && lex_lt(q, k) implies identity_fault((q, m[q]))
                    is None by {
                    if q != head.0 {
                        assert(m0.contains_key(q));
                    }
                }
                assert(first_corrupted(m, k));
            } else {
                assert forall|k: Seq<u8>| #[trigger] m.contains_key(k) implies identity_fault(
                    (k, m[k]),
                ) is None by {
                    if k != head.0 {
                        assert(m0.contains_key(k));
                    }
                }
            }
        }
    }
}

/// The history of revaluations only rises: each recorded dividend exceeds the one
/// recorded just below it.
pub open spec fn history_rises(reval: Map<Seq<u8>, Seq<u8>>) -> bool {
    forall|k: Seq<u8>, p: Seq<u8>|
        reval.contains_key(k) && #[trigger] is_greatest_below(reval, k, p)
            ==> SourceAmountValV2::decoding(reval[k]).0.exceeds(
            SourceAmountValV2::decoding(reval[p]).0,
        )
}

/// No revaluation is recorded above the block `number`.
pub open spec fn none_above(reval: Map<Seq<u8>, Seq<u8>>, number: u32) -> bool {
    forall|k: Seq<u8>| #[trigger] reval.contains_key(k) ==> lex_le(k, be32(number))
}

/// No revaluation is recorded at the block `number` or above.
pub open spec fn all_below(reval: Map<Seq<u8>, Seq<u8>>, number: u32) -> bool {
    forall|k: Seq<u8>| #[trigger] reval.contains_key(k) ==> lex_lt(k, be32(number))
}

/// What creating a dividend writes to the revaluations leaves them as `reval_created` says.
pub proof fn lemma_reval_upserts(reval: Map<Seq<u8>, Seq<u8>>, number: u32, dividend: SourceAmount)
    ensures
        replay(reval, reval_upserts(reval, number, dividend)) == reval_created(
            reval,
            number,
            dividend,
        ),
{
    let ups = reval_upserts(reval, number, dividend);
    reveal_with_fuel(replay, 3);
    if ups.len() > 0 {
        assert(ups.drop_last() =~= Seq::<Mutation>::empty());
    }
}

/// What reverting a dividend writes to the revaluations leaves them as `reval_reverted` says.
pub proof fn lemma_reval_removes(reval: Map<Seq<u8>, Seq<u8>>, number: u32)
    ensures
        replay(reval, reval_removes(reval, number)) == reval_reverted(reval, number),
{
    let rem = reval_removes(reval, number);
    reveal_with_fuel(replay, 3);
    if rem.len() > 0 {
        assert(rem.drop_last() =~= Seq::<Mutation>::empty());
    }
}

/// The members that a scan finds are the members that the identities hold.
pub proof fn lemma_members_found(pairs: Seq<Pair>)
    requires
        keys_increase(pairs),
    ensures
        members_of(pairs).to_set() == member_keys(map_of(pairs)),
    decreases pairs.len(),
{
    let found = members_of(pairs).to_set();
    let held = member_keys(map_of(pairs));
    if pairs.len() == 0 {
        assert forall|pk: Seq<u8>| !held.contains(pk) by {
            if held.contains(pk) {
                let k = choose|k: Seq<u8>|
                    #[trigger] map_of(pairs).contains_key(k) && IdtyDbV2::is_member(
                        map_of(pairs)[k],
                    ) && padded_key(k) == pk;
                let r = crate::column::rank_of(pairs, k);
            }
        }
        assert(found =~= held);
    } else {
        let n = pairs.len() - 1;
        let rest = pairs.drop_last();
        let last = pairs.last();
        assert(pairs.remove(n) =~= rest);
        lemma_map_of_remove(pairs, n);
        lemma_map_of_rank(pairs, n);
        lemma_members_found(rest);
        let m = map_of(pairs);
        let m0 = map_of(rest);
        assert forall|pk: Seq<u8>| found.contains(pk) == held.contains(pk) by {
            if found.contains(pk) {
                let i = choose|i: int|
                    0 <= i < members_of(pairs).len() && members_of(pairs)[i] == pk;
                if i < members_of(rest).len() {
                    assert(members_of(rest)[i] == pk);
                    assert(members_of(rest).to_set().contains(pk));
                    let k = choose|k: Seq<u8>|
                        #[trigger] m0.contains_key(k) && IdtyDbV2::is_member(m0[k]) && padded_key(
                            k,
                        ) == pk;
                    assert(m.contains_key(k) && m[k] == m0[k]);
                } else {
                    assert(m.contains_key(last.0));
                }
            }
            if held.contains(pk) {
                let k = choose|k: Seq<u8>|
                    #[trigger] m.contains_key(k) && IdtyDbV2::is_member(m[k]) && padded_key(k)
                        == pk;
                if k == last.0 {
                    let i = members_of(pairs).len() - 1;
                    assert(members_of(pairs)[i] == pk);
                } else {
                    assert(m0.contains_key(k) && m0[k] == m[k]);
                    assert(member_keys(m0).contains(pk));
                    assert(members_of(rest).to_set().contains(pk));
                    let i = choose|i: int|
                        0 <= i < members_of(rest).len() && members_of(rest)[i] == pk;
                    assert(members_of(pairs)[i] == pk);
                }
            }
        }
        assert(found =~= held);
    }
}

/// The credit keys of a sequence with one more public key are those of the
/// sequence and the key of the last.
proof fn lemma_credit_keys_push(members: Seq<Seq<u8>>, number: u32)
    requires
        members.len() > 0,
    ensures
        forall|k: Seq<u8>|
            credit_keys(members.to_set(), number).contains(k) == (credit_keys(
                members.drop_last().to_set(),
                number,
            ).contains(k) || k == credit_key(members.last(), number)),
{
    let rest = members.drop_last();
    let last = members.last();
    assert forall|k: Seq<u8>|
        credit_keys(members.to_set(), number).contains(k) == (credit_keys(
            rest.to_set(),
            number,
        ).contains(k) || k == credit_key(last, number)) by {
        if credit_keys(members.to_set(), number).contains(k) {
            let pk = choose|pk: Seq<u8>|
                members.to_set().contains(pk) && k == #[trigger] credit_key(pk, number);
            let i = choose|i: int| 0 <= i < members.len() && members[i] == pk;
            if i < members.len() - 1 {
                assert(rest[i] == pk);
                assert(rest.to_set().contains(pk));
            }
        }
        if credit_keys(rest.to_set(), number).contains(k) {
            let pk = choose|pk: Seq<u8>|
                rest.to_set().contains(pk) && k == #[trigger] credit_key(pk, number);
            let i = choose|i: int| 0 <= i < rest.len() && rest[i] == pk;
            assert(members[i] == pk);
            assert(members.to_set().contains(pk));
        }
        if k == credit_key(last, number) {
            assert(members[members.len() - 1] == last);
            assert(members.to_set().contains(last));
        }
    }
}

/// Crediting a sequence of public keys one by one credits the set of them.
pub proof fn lemma_credit_upserts(uds: Map<Seq<u8>, Seq<u8>>, members: Seq<Seq<u8>>, number: u32)
    ensures
        replay(uds, credit_upserts(members, number)) == credited(uds, members.to_set(), number),
    decreases members.len(),
{
    let ups = credit_upserts(members, number);
    if members.len() == 0 {
        assert forall|k: Seq<u8>| !credit_keys(members.to_set(), number).contains(k) by {
            if credit_keys(members.to_set(), number).contains(k) {
                let pk = choose|pk: Seq<u8>|
                    members.to_set().contains(pk) && k == #[trigger] credit_key(pk, number);
                assert(members.contains(pk));
            }
        }
        assert(credited(uds, members.to_set(), number) =~= uds);
    } else {
        let rest = members.drop_last();
        assert(ups.drop_last() =~= credit_upserts(rest, number));
        lemma_credit_upserts(uds, rest, number);
        lemma_credit_keys_push(members, number);
        assert(replay(uds, ups) =~= credited(uds, members.to_set(), number));
    }
}

/// Withdrawing the credits of a sequence of public keys one by one withdraws
/// those of the set of them.
pub proof fn lemma_credit_removes(uds: Map<Seq<u8>, Seq<u8>>, members: Seq<Seq<u8>>, number: u32)
    ensures
        replay(uds, credit_removes(members, number)) == withdrawn(uds, members.to_set(), number),
    decreases members.len(),
{
    let rem = credit_removes(members, number);
    if members.len() == 0 {
        assert forall|k: Seq<u8>| !credit_keys(members.to_set(), number).contains(k) by {
            if credit_keys(members.to_set(), number).contains(k) {
                let pk = choose|pk: Seq<u8>|
                    members.to_set().contains(pk) && k == #[trigger] credit_key(pk, number);
                assert(members.contains(pk));
            }
        }
        assert(withdrawn(uds, members.to_set(), number) =~= uds);
    } else {
        let rest = members.drop_last();
        assert(rem.drop_last() =~= credit_removes(rest, number));
        lemma_credit_removes(uds, rest, number);
        lemma_credit_keys_push(members, number);
        assert(replay(uds, rem) =~= withdrawn(uds, members.to_set(), number));
    }
}

/// After the dividend of a block was created, those credited at that block are
/// those who were credited there before and the members; so where nobody but
/// members was credited there before, they are exactly the members. The credits
/// at every other block are as before.
pub proof fn lemma_credits_after_create(
    identities: Map<Seq<u8>, Seq<u8>>,
    uds: Map<Seq<u8>, Seq<u8>>,
    number: u32,
)
    requires
        valid_identity_keys(identities),
    ensures
        credits_at(credited(uds, member_keys(identities), number), number) == credits_at(
            uds,
            number,
        ).union(member_keys(identities)),
        credits_at(uds, number).subset_of(member_keys(identities)) ==> credits_at(
            credited(uds, member_keys(identities), number),
            number,
        ) == member_keys(identities),
        forall|other: u32|
            other != number ==> #[trigger] credits_at(
                credited(uds, member_keys(identities), number),
                other,
            ) == credits_at(uds, other),
{
    let who = member_keys(identities);
    let after = credited(uds, who, number);
    assert forall|pk: Seq<u8>| who.contains(pk) implies pk.len() == 33 by {
        let k = choose|k: Seq<u8>|
            #[trigger] identities.contains_key(k) && IdtyDbV2::is_member(identities[k])
                && padded_key(k) == pk;
        assert(k.len() <= 33);
    }
    assert forall|pk: Seq<u8>, other: u32| pk.len() == 33 implies (credit_keys(
        who,
        number,
    ).contains(#[trigger] credit_key(pk, other)) == (other == number && who.contains(pk))) by {
        if credit_keys(who, number).contains(credit_key(pk, other)) {
            let q = choose|q: Seq<u8>|
                who.contains(q) && credit_key(pk, other) == #[trigger] credit_key(q, number);
            lemma_credit_key_injective(pk, other, q, number);
        }
    }
    assert forall|pk: Seq<u8>|
        credits_at(after, number).contains(pk) == credits_at(uds, number).union(who).contains(
            pk,
        ) by {
        if pk.len() == 33 {
            assert(credit_keys(who, number).contains(credit_key(pk, number)) == who.contains(pk));
        }
    }
    assert(credits_at(after, number) =~= credits_at(uds, number).union(who));
    if credits_at(uds, number).subset_of(who) {
        assert(credits_at(uds, number).union(who) =~= who);
    }
    assert forall|other: u32| other != number implies #[trigger] credits_at(after, other)
        == credits_at(uds, other) by {
        assert forall|pk: Seq<u8>|
            credits_at(after, other).contains(pk) == credits_at(uds, other).contains(pk) by {
            if pk.len() == 33 {
                assert(!credit_keys(who, number).contains(credit_key(pk, other)));
            }
        }
        assert(credits_at(after, other) =~= credits_at(uds, other));
    }
}

/// Where the history of revaluations only rises and holds nothing above a block,
/// it still does after that block's dividend was created.
pub proof fn lemma_create_keeps_history_rising(
    reval: Map<Seq<u8>, Seq<u8>>,
    number: u32,
    dividend: SourceAmount,
)
    requires
        valid_revals(reval),
        history_rises(reval),
        none_above(reval, number),
    ensures
        valid_revals(reval_created(reval, number, dividend)),
        history_rises(reval_created(reval, number, dividend)),
        none_above(reval_created(reval, number, dividend), number),
{
    let after = reval_created(reval, number, dividend);
    let at = be32(number);
    lemma_be32_inverse(number, seq![]);
    lemma_amount_round_trip(SourceAmountValV2(dividend));
    if dividend.exceeds(previous_amount(reval, number)) {
        assert forall|k: Seq<u8>, p: Seq<u8>|
            after.contains_key(k) && #[trigger] is_greatest_below(
                after,
                k,
                p,
            ) implies SourceAmountValV2::decoding(after[k]).0.exceeds(
            SourceAmountValV2::decoding(after[p]).0,
        ) by {
            lemma_lex_irreflexive(at);
            if k == at {
                assert(reval.contains_key(p));
                assert forall|q: Seq<u8>| #[trigger]
                    reval.contains_key(q) && lex_lt(q, at) implies lex_le(q, p) by {
                    assert(after.contains_key(q));
                }
                assert(is_greatest_below(reval, at, p));
                lemma_greatest_below_unique(reval, at, p, previous_key(reval, number));
            } else {
                assert(reval.contains_key(k));
                assert(lex_le(k, at));
                if p == at {
                    lemma_lex_asymmetric(p, k);
                }
                assert(reval.contains_key(p));
                assert forall|q: Seq<u8>| #[trigger]
                    reval.contains_key(q) && lex_lt(q, k) implies lex_le(q, p) by {
                    assert(after.contains_key(q));
                }
                assert(is_greatest_below(reval, k, p));
            }
        }
    }
}

/// The revaluations after the dividends of a sequence of blocks were created, in order.
pub open spec fn reval_after(
    reval: Map<Seq<u8>, Seq<u8>>,
    blocks: Seq<(u32, SourceAmount)>,
) -> Map<Seq<u8>, Seq<u8>>
    decreases blocks.len(),
{
    if blocks.len() == 0 {
        reval
    } else {
        reval_created(reval_after(reval, blocks.drop_last()), blocks.last().0, blocks.last().1)
    }
}

/// The numbers of a sequence of blocks never fall.
pub open spec fn numbers_rise(blocks: Seq<(u32, SourceAmount)>) -> bool {
    forall|i: int, j: int| 0 <= i < j < blocks.len() ==> blocks[i].0 <= blocks[j].0
}

/// After the dividends of any sequence of blocks were created in the order of
/// their numbers, starting from no history, the history of revaluations only rises.
pub proof fn lemma_history_rises(blocks: Seq<(u32, SourceAmount)>)
    requires
        numbers_rise(blocks),
    ensures
        valid_revals(reval_after(Map::empty(), blocks)),
        history_rises(reval_after(Map::empty(), blocks)),
        blocks.len() > 0 ==> none_above(reval_after(Map::empty(), blocks), blocks.last().0),
    decreases blocks.len(),
{
    if blocks.len() > 0 {
        let rest = blocks.drop_last();
        let before = reval_after(Map::empty(), rest);
        let number = blocks.last().0;
        lemma_history_rises(rest);
        if rest.len() > 0 {
            assert(rest.last() == blocks[rest.len() - 1]);
            crate::bytes::lemma_be32_order(rest.last().0, number);
            assert forall|k: Seq<u8>| #[trigger] before.contains_key(k) implies lex_le(
                k,
                be32(number),
            ) by {
                if k != be32(rest.last().0) && rest.last().0 != number {
                    crate::bytes::lemma_lex_transitive(k, be32(rest.last().0), be32(number));
                }
            }
        }
        lemma_create_keeps_history_rising(before, number, blocks.last().1);
    }
}

/// Whether reverting the dividend of the block `number` at once undoes what
/// creating it wrote to the revaluations. Where the dividend was recorded: the
/// block is above every revaluation, or it is not the last and held that very
/// dividend already. Where it was not: a revaluation is recorded, and the last
/// is not the block's.
pub open spec fn reval_undone(
    reval: Map<Seq<u8>, Seq<u8>>,
    number: u32,
    dividend: SourceAmount,
) -> bool {
    let at = be32(number);
    if dividend.exceeds(previous_amount(reval, number)) {
        all_below(reval, number) || (!none_above(reval, number) && reval.contains_key(at)
            && reval[at] == SourceAmountValV2(dividend).encoding())
    } else {
        has_greatest(reval) && greatest_key(reval) != at
    }
}

/// Whether withdrawing the credits of the members at the block `number` at once
/// undoes crediting them: no member was credited at that block before.
pub open spec fn credits_undone(
    identities: Map<Seq<u8>, Seq<u8>>,
    uds: Map<Seq<u8>, Seq<u8>>,
    number: u32,
) -> bool {
    forall|pk: Seq<u8>|
        member_keys(identities).contains(pk) ==> !uds.contains_key(
            #[trigger] credit_key(pk, number),
        )
}

/// Creating the dividend of a block and reverting it at once leaves the
/// revaluations and the credits as they were, without the revert failing on the
/// revaluations, exactly where `reval_undone` and `credits_undone` hold: so for
/// every block above all revaluations at which no member was credited yet, but
/// for a dividend that exceeds nothing while no revaluation is recorded. The
/// identities are written by neither.
pub proof fn lemma_create_then_revert(
    identities: Column,
    uds: Column,
    uds_reval: Column,
    number: u32,
    dividend: SourceAmount,
)
    requires
        identities.wf(),
        uds.wf(),
        uds_reval.wf(),
        valid_revals(uds_reval@),
    ensures
        ({
            let created = reval_created(uds_reval@, number, dividend);
            let who = member_keys(identities@);
            &&& has_greatest(created)
            &&& greatest_key(created).len() == 4
            &&& reval_reverted(created, number) == uds_reval@
            &&& withdrawn(credited(uds@, who, number), who, number) == uds@
        }) <==> reval_undone(uds_reval@, number, dividend) && credits_undone(
            identities@,
            uds@,
            number,
        ),
{
    let reval = uds_reval@;
    let created = reval_created(reval, number, dividend);
    let at = be32(number);
    let enc = SourceAmountValV2(dividend).encoding();
    let who = member_keys(identities@);
    let after = credited(uds@, who, number);
    lemma_be32_inverse(number, seq![]);
    lemma_amount_round_trip(SourceAmountValV2(dividend));
    lemma_lex_irreflexive(at);
    uds_reval.lemma_last_is_greatest();
    let some = uds_reval.pairs().len() > 0;
    let last = uds_reval.pairs().last().0;
    if some {
        lemma_greatest_unique(reval, last, greatest_key(reval));
    } else {
        assert(!has_greatest(reval)) by {
            if has_greatest(reval) {
                assert(reval.contains_key(greatest_key(reval)));
            }
        }
        assert(!has_previous(reval, number)) by {
            if has_previous(reval, number) {
                assert(reval.contains_key(previous_key(reval, number)));
            }
        }
    }
    // The credits.
    if credits_undone(identities@, uds@, number) {
        assert forall|k: Seq<u8>| credit_keys(who, number).contains(k) implies !uds@.contains_key(
            k,
        ) by {
            let pk = choose|pk: Seq<u8>| who.contains(pk) && k == #[trigger] credit_key(pk, number);
        }
        assert(withdrawn(after, who, number) =~= uds@);
    } else {
        let pk = choose|pk: Seq<u8>|
            who.contains(pk) && uds@.contains_key(#[trigger] credit_key(pk, number));
        assert(credit_keys(who, number).contains(credit_key(pk, number)));
        assert(!withdrawn(after, who, number).contains_key(credit_key(pk, number)));
    }
    // The revaluations.
    if dividend.exceeds(previous_amount(reval, number)) {
        assert(created.contains_key(at));
        if all_below(reval, number) {
            assert(is_greatest(created, at));
            lemma_greatest_unique(created, at, greatest_key(created));
            assert(!reval.contains_key(at));
            assert(created.remove(at) =~= reval);
        } else if none_above(reval, number) {
            let k = choose|k: Seq<u8>| #[trigger] reval.contains_key(k) && !lex_lt(k, at);
            assert(lex_le(k, at));
            assert(is_greatest(created, at));
            lemma_greatest_unique(created, at, greatest_key(created));
            assert(!created.remove(at).contains_key(at));
        } else {
            let k = choose|k: Seq<u8>| #[trigger] reval.contains_key(k) && !lex_le(k, at);
            crate::bytes::lemma_lex_total(k, at);
            assert(lex_le(k, last));
            if k != last {
                crate::bytes::lemma_lex_transitive(at, k, last);
            }
            assert(is_greatest(created, last));
            lemma_greatest_unique(created, last, greatest_key(created));
            if reval.contains_key(at) && reval[at] == enc {
                assert(created =~= reval);
            } else {
                assert(created.contains_key(at) && created[at] == enc);
            }
        }
    } else if some {
        if last == at {
            assert(!reval.remove(at).contains_key(at));
        }
    }
}

} // verus!
