use duniter_ledger::bc::uds::{create_uds, members, previous_ud_amount, revert_uds};
use duniter_ledger::bc::BcV2Db;
use duniter_ledger::column::Column;
use duniter_ledger::errors::{CorruptedBytes, DecodeFault, KvError, Violation};
use duniter_ledger::keys::block_number::{BlockNumber, U32BE};
use duniter_ledger::keys::pubkey::{PubKeyKeyV2, PublicKey};
use duniter_ledger::keys::ud_id::UdIdV2;
use duniter_ledger::transaction::{Event, TxColRw};
use duniter_ledger::values::idty_db::IdtyDbV2;
use duniter_ledger::values::source_amount::{SourceAmount, SourceAmountValV2};

fn pubkey(first: u8) -> PublicKey {
    let mut datas = [7u8; 32];
    datas[0] = first;
    PublicKey { datas, count_leading_zero: 0 }
}

fn amount(units: i64) -> SourceAmount {
    SourceAmount { amount: units, base: 0 }
}

fn idty(member: bool) -> Vec<u8> {
    IdtyDbV2 { member, data: b"alice".to_vec() }.as_bytes()
}

fn reval_entry(number: u32, units: i64) -> (Vec<u8>, Vec<u8>) {
    (U32BE(number).as_bytes(), SourceAmountValV2(amount(units)).as_bytes())
}

fn credit(pubkey: PublicKey, number: u32) -> (Vec<u8>, Vec<u8>) {
    (UdIdV2(pubkey, BlockNumber(number)).as_bytes(), Vec::new())
}

fn contents(col: &Column) -> Vec<(Vec<u8>, Vec<u8>)> {
    (0..col.len())
        .map(|i| {
            let (k, v) = col.entry(i).expect("within the column");
            (k.clone(), v.clone())
        })
        .collect()
}

/// Identities {A: member, B: non-member}, and nothing else.
fn a_member_b_not() -> BcV2Db {
    let mut db = BcV2Db::new();
    db.identities.upsert(PubKeyKeyV2(pubkey(0xA)).as_bytes(), idty(true));
    db.identities.upsert(PubKeyKeyV2(pubkey(0xB)).as_bytes(), idty(false));
    db
}

#[test]
fn apply_records_a_first_dividend_and_credits_the_members() {
    let mut db = a_member_b_not();
    let on_reval = db.uds_reval_subscribers.subscribe();
    let on_uds = db.uds_subscribers.subscribe();
    db.apply_dividend(BlockNumber(100), amount(10)).expect("apply");
    assert_eq!(contents(&db.uds_reval), vec![reval_entry(100, 10)]);
    assert_eq!(contents(&db.uds), vec![credit(pubkey(0xA), 100)]);
    let batch = db.uds_reval_subscribers.take(on_reval).expect("a batch");
    assert_eq!(batch.len(), 1);
    assert!(matches!(
        &batch[0],
        Event::Upsert { key, value } if (key.clone(), value.clone()) == reval_entry(100, 10)
    ));
    let batch = db.uds_subscribers.take(on_uds).expect("a batch");
    assert_eq!(batch.len(), 1);
    assert!(matches!(
        &batch[0],
        Event::Upsert { key, value } if (key.clone(), value.clone()) == credit(pubkey(0xA), 100)
    ));
    assert!(db.uds_reval_subscribers.take(on_reval).is_none());
    assert!(db.uds_subscribers.take(on_uds).is_none());
}

#[test]
fn apply_of_the_same_amount_leaves_the_history() {
    let mut db = a_member_b_not();
    db.apply_dividend(BlockNumber(100), amount(10)).expect("apply 100");
    let on_reval = db.uds_reval_subscribers.subscribe();
    let on_uds = db.uds_subscribers.subscribe();
    db.apply_dividend(BlockNumber(150), amount(10)).expect("apply 150");
    assert_eq!(contents(&db.uds_reval), vec![reval_entry(100, 10)]);
    assert_eq!(contents(&db.uds), vec![credit(pubkey(0xA), 100), credit(pubkey(0xA), 150)]);
    // Nothing was committed to the history: its subscribers are sent nothing.
    assert!(db.uds_reval_subscribers.take(on_reval).is_none());
    assert_eq!(db.uds_subscribers.take(on_uds).expect("a batch").len(), 1);
}

#[test]
fn revert_restores_the_state_before_the_apply() {
    let mut db = a_member_b_not();
    db.apply_dividend(BlockNumber(100), amount(10)).expect("apply 100");
    db.apply_dividend(BlockNumber(150), amount(10)).expect("apply 150");
    let on_reval = db.uds_reval_subscribers.subscribe();
    let on_uds = db.uds_subscribers.subscribe();
    db.revert_dividend(BlockNumber(150)).expect("revert 150");
    assert_eq!(contents(&db.uds_reval), vec![reval_entry(100, 10)]);
    assert_eq!(contents(&db.uds), vec![credit(pubkey(0xA), 100)]);
    assert!(db.uds_reval_subscribers.take(on_reval).is_none());
    let batch = db.uds_subscribers.take(on_uds).expect("a batch");
    assert_eq!(batch.len(), 1);
    assert!(matches!(&batch[0], Event::Remove { key } if *key == credit(pubkey(0xA), 150).0));
}

#[test]
fn apply_then_revert_is_idempotent() {
    let mut db = a_member_b_not();
    db.apply_dividend(BlockNumber(100), amount(10)).expect("apply 100");
    let identities = contents(&db.identities);
    let history = contents(&db.uds_reval);
    let credits = contents(&db.uds);
    for dividend in [5, 10, 11, 1000] {
        db.apply_dividend(BlockNumber(200), amount(dividend)).expect("apply 200");
        db.revert_dividend(BlockNumber(200)).expect("revert 200");
        assert_eq!(contents(&db.identities), identities);
        assert_eq!(contents(&db.uds_reval), history);
        assert_eq!(contents(&db.uds), credits);
    }
}

#[test]
fn apply_of_a_higher_amount_is_recorded_and_reverted() {
    let mut db = a_member_b_not();
    db.apply_dividend(BlockNumber(100), amount(10)).expect("apply 100");
    db.apply_dividend(BlockNumber(150), amount(11)).expect("apply 150");
    assert_eq!(contents(&db.uds_reval), vec![reval_entry(100, 10), reval_entry(150, 11)]);
    let on_reval = db.uds_reval_subscribers.subscribe();
    db.revert_dividend(BlockNumber(150)).expect("revert 150");
    assert_eq!(contents(&db.uds_reval), vec![reval_entry(100, 10)]);
    let batch = db.uds_reval_subscribers.take(on_reval).expect("a batch");
    assert_eq!(batch.len(), 1);
    assert!(matches!(&batch[0], Event::Remove { key } if *key == U32BE(150).as_bytes()));
}

#[test]
fn a_failed_write_sends_nothing() {
    let mut db = a_member_b_not();
    let on_reval = db.uds_reval_subscribers.subscribe();
    let on_uds = db.uds_subscribers.subscribe();
    db.revert_dividend(BlockNumber(1)).expect_err("empty history");
    db.identities.upsert(PubKeyKeyV2(pubkey(0xC)).as_bytes(), vec![9]);
    db.apply_dividend(BlockNumber(1), amount(1)).expect_err("corrupted identity");
    assert!(db.uds_reval_subscribers.take(on_reval).is_none());
    assert!(db.uds_subscribers.take(on_uds).is_none());
}

#[test]
fn history_rises_over_a_sequence_of_applies() {
    let mut db = a_member_b_not();
    for (number, dividend) in [(1, 10), (2, 10), (3, 12), (4, 11), (5, 12), (9, 13), (9, 20)] {
        db.apply_dividend(BlockNumber(number), amount(dividend)).expect("apply");
    }
    assert_eq!(
        contents(&db.uds_reval),
        vec![reval_entry(1, 10), reval_entry(3, 12), reval_entry(9, 20)]
    );
}

#[test]
fn the_previous_amount_is_the_one_below_the_block() {
    let mut reval = Column::new();
    let (k, v) = reval_entry(100, 10);
    reval.upsert(k, v);
    let (k, v) = reval_entry(300, 30);
    reval.upsert(k, v);
    assert_eq!(previous_ud_amount(&reval, BlockNumber(0)), Ok(amount(0)));
    assert_eq!(previous_ud_amount(&reval, BlockNumber(100)), Ok(amount(0)));
    assert_eq!(previous_ud_amount(&reval, BlockNumber(101)), Ok(amount(10)));
    assert_eq!(previous_ud_amount(&reval, BlockNumber(300)), Ok(amount(10)));
    assert_eq!(previous_ud_amount(&reval, BlockNumber(301)), Ok(amount(30)));
    assert_eq!(previous_ud_amount(&reval, BlockNumber(u32::MAX)), Ok(amount(30)));
}

#[test]
fn apply_between_two_revaluations_reads_the_lower_one() {
    let mut db = a_member_b_not();
    db.apply_dividend(BlockNumber(100), amount(10)).expect("apply 100");
    db.apply_dividend(BlockNumber(300), amount(30)).expect("apply 300");
    db.apply_dividend(BlockNumber(200), amount(20)).expect("apply 200");
    assert_eq!(
        contents(&db.uds_reval),
        vec![reval_entry(100, 10), reval_entry(200, 20), reval_entry(300, 30)]
    );
    // 200 is not the last revaluation: reverting it leaves the history.
    db.revert_dividend(BlockNumber(200)).expect("revert 200");
    assert_eq!(contents(&db.uds_reval).len(), 3);
}

#[test]
fn revert_without_history_is_an_invariant_violation() {
    let mut db = a_member_b_not();
    let (k, v) = credit(pubkey(0xA), 7);
    db.uds.upsert(k, v);
    let err = db.revert_dividend(BlockNumber(7)).expect_err("empty history");
    assert_eq!(err, KvError::InvariantViolation(Violation::EmptyRevalHistory));
    assert_eq!(contents(&db.uds), vec![credit(pubkey(0xA), 7)]);
}

#[test]
fn a_dividend_of_nothing_on_an_empty_history_cannot_be_reverted() {
    let mut db = a_member_b_not();
    db.apply_dividend(BlockNumber(1), amount(0)).expect("apply");
    assert!(contents(&db.uds_reval).is_empty());
    assert_eq!(
        db.revert_dividend(BlockNumber(1)).err(),
        Some(KvError::InvariantViolation(Violation::EmptyRevalHistory))
    );
}

#[test]
fn a_corrupted_identity_aborts_apply_and_revert() {
    let mut db = a_member_b_not();
    db.apply_dividend(BlockNumber(100), amount(10)).expect("apply 100");
    db.identities.upsert(PubKeyKeyV2(pubkey(0xC)).as_bytes(), vec![2, 0]);
    let history = contents(&db.uds_reval);
    let credits = contents(&db.uds);
    let expected = KvError::CorruptedRecord(CorruptedBytes {
        bytes: vec![2, 0],
        fault: DecodeFault::InvalidFlag { flag: 2 },
    });
    assert_eq!(db.apply_dividend(BlockNumber(150), amount(11)).err(), Some(expected.clone()));
    assert_eq!(contents(&db.uds_reval), history);
    assert_eq!(contents(&db.uds), credits);
    assert_eq!(db.revert_dividend(BlockNumber(100)).err(), Some(expected));
    assert_eq!(contents(&db.uds_reval), history);
    assert_eq!(contents(&db.uds), credits);
}

#[test]
fn the_first_corrupted_identity_is_reported() {
    let mut identities = Column::new();
    identities.upsert(PubKeyKeyV2(pubkey(0xA)).as_bytes(), idty(true));
    identities.upsert(PubKeyKeyV2(pubkey(0xB)).as_bytes(), Vec::new());
    identities.upsert(vec![0xC; 34], idty(true));
    assert_eq!(
        members(&identities),
        Err(KvError::CorruptedRecord(CorruptedBytes {
            bytes: Vec::new(),
            fault: DecodeFault::InvalidLength { expected: 1, found: 0 },
        }))
    );
    identities.remove(&PubKeyKeyV2(pubkey(0xB)).as_bytes());
    assert_eq!(
        members(&identities),
        Err(KvError::CorruptedRecord(CorruptedBytes {
            bytes: vec![0xC; 34],
            fault: DecodeFault::InvalidLength { expected: 33, found: 34 },
        }))
    );
    identities.remove(&[0xC; 34]);
    assert_eq!(members(&identities), Ok(vec![pubkey(0xA)]));
}

#[test]
fn members_come_in_the_order_of_their_keys() {
    let mut identities = Column::new();
    for first in [9u8, 3, 200, 1, 77] {
        identities.upsert(PubKeyKeyV2(pubkey(first)).as_bytes(), idty(first != 3));
    }
    assert_eq!(members(&identities), Ok(vec![pubkey(1), pubkey(9), pubkey(77), pubkey(200)]));
}

#[test]
fn a_corrupted_revaluation_aborts_apply() {
    let mut db = a_member_b_not();
    db.uds_reval.upsert(U32BE(100).as_bytes(), vec![1, 2, 3]);
    let err = db.apply_dividend(BlockNumber(150), amount(11)).expect_err("corrupted");
    assert_eq!(
        err,
        KvError::CorruptedRecord(CorruptedBytes {
            bytes: vec![1, 2, 3],
            fault: DecodeFault::InvalidLength { expected: 16, found: 3 },
        })
    );
    assert!(contents(&db.uds).is_empty());
    // Below the corrupted entry nothing is read.
    db.apply_dividend(BlockNumber(100), amount(11)).expect("apply 100");
}

#[test]
fn a_corrupted_last_key_aborts_revert() {
    let mut db = a_member_b_not();
    db.apply_dividend(BlockNumber(100), amount(10)).expect("apply 100");
    db.uds_reval.upsert(vec![0xFF, 0, 0, 0, 0], SourceAmountValV2(amount(1)).as_bytes());
    let err = db.revert_dividend(BlockNumber(100)).expect_err("corrupted");
    assert_eq!(
        err,
        KvError::CorruptedRecord(CorruptedBytes {
            bytes: vec![0xFF, 0, 0, 0, 0],
            fault: DecodeFault::InvalidLength { expected: 4, found: 5 },
        })
    );
    assert_eq!(contents(&db.uds), vec![credit(pubkey(0xA), 100)]);
}

#[test]
fn create_and_revert_record_their_writes_in_the_transactions() {
    let db = a_member_b_not();
    let mut identities = TxColRw::begin(&db.identities);
    let mut uds = TxColRw::begin(&db.uds);
    let mut uds_reval = TxColRw::begin(&db.uds_reval);
    create_uds(BlockNumber(5), amount(3), &mut identities, &mut uds, &mut uds_reval)
        .expect("create");
    assert_eq!(contents(uds.col()), vec![credit(pubkey(0xA), 5)]);
    assert_eq!(contents(uds_reval.col()), vec![reval_entry(5, 3)]);
    revert_uds(BlockNumber(5), &mut identities, &mut uds, &mut uds_reval).expect("revert");
    assert!(contents(uds.col()).is_empty());
    assert!(contents(uds_reval.col()).is_empty());
    // Nothing was committed, and committing replays all four writes.
    let mut credits = Column::new();
    let batch = uds.commit(&mut credits);
    assert_eq!(batch.len(), 2);
    assert!(contents(&credits).is_empty());
    assert!(contents(&db.uds).is_empty());
}

#[test]
fn amounts_of_two_bases_compare_in_the_higher_base() {
    let a1 = SourceAmount { amount: 20, base: 3 };
    let a2 = SourceAmount { amount: 9_000, base: 0 };
    assert!(a1.gt(&a2));
    assert!(!a2.gt(&a1));
    // 19 999 units of base 0 are 19 units of base 3.
    assert!(a1.gt(&SourceAmount { amount: 19_999, base: 0 }));
    assert!(!a1.gt(&SourceAmount { amount: 20_000, base: 0 }));
    assert!(!SourceAmount { amount: 20_999, base: 0 }.gt(&a1));
    assert!(SourceAmount { amount: 21_000, base: 0 }.gt(&a1));
    // Tenths round towards zero.
    assert!(!SourceAmount { amount: -1, base: 1 }.gt(&SourceAmount { amount: -19, base: 0 }));
    assert!(SourceAmount { amount: 0, base: 1 }.gt(&SourceAmount { amount: -10, base: 0 }));
    assert!(!SourceAmount { amount: 0, base: 1 }.gt(&SourceAmount { amount: -9, base: 0 }));
    assert!(!amount(5).gt(&amount(5)));
    assert!(amount(6).gt(&amount(5)));
}

#[test]
fn amounts_of_distant_bases_compare_against_nothing() {
    let far = SourceAmount { amount: 1, base: i64::MAX };
    let near = SourceAmount { amount: i64::MAX, base: i64::MIN };
    assert!(far.gt(&near));
    assert!(!near.gt(&far));
    let debt = SourceAmount { amount: -1, base: 1000 };
    assert!(!debt.gt(&amount(i64::MIN)));
    assert!(amount(i64::MIN).gt(&debt));
    assert!(!SourceAmount { amount: 0, base: 65 }.gt(&amount(i64::MAX)));
    assert!(!amount(i64::MAX).gt(&SourceAmount { amount: 0, base: 65 }));
    // At the greatest gap that is still scaled step by step.
    assert!(SourceAmount { amount: 1, base: 64 }.gt(&amount(i64::MAX)));
    assert!(!SourceAmount { amount: 0, base: 64 }.gt(&amount(i64::MAX)));
}

#[test]
fn amounts_are_stored_big_endian() {
    let stored = SourceAmountValV2(SourceAmount { amount: 0x0102, base: -2 }).as_bytes();
    assert_eq!(
        stored,
        vec![0, 0, 0, 0, 0, 0, 1, 2, 0xFF, 0xFF, 0xFF, 0xFF, 0xFF, 0xFF, 0xFF, 0xFE]
    );
    assert_eq!(
        SourceAmountValV2::from_bytes(&stored),
        Ok(SourceAmountValV2(SourceAmount { amount: 0x0102, base: -2 }))
    );
    for units in [i64::MIN, -1, 0, 1, i64::MAX] {
        let value = SourceAmountValV2(SourceAmount { amount: units, base: units });
        assert_eq!(SourceAmountValV2::from_bytes(&value.as_bytes()), Ok(value));
    }
    let err = SourceAmountValV2::from_bytes(&[0; 15]).expect_err("fifteen bytes");
    assert_eq!(err.fault, DecodeFault::InvalidLength { expected: 16, found: 15 });
    assert_eq!(SourceAmount::zero(), amount(0));
}

#[test]
fn apply_credits_exactly_the_members() {
    let mut db = BcV2Db::new();
    for first in 1u8..=6 {
        db.identities.upsert(PubKeyKeyV2(pubkey(first)).as_bytes(), idty(first % 2 == 0));
    }
    db.apply_dividend(BlockNumber(9), amount(1)).expect("apply");
    assert_eq!(
        contents(&db.uds),
        vec![credit(pubkey(2), 9), credit(pubkey(4), 9), credit(pubkey(6), 9)]
    );
    // Membership is read again at each block.
    db.identities.upsert(PubKeyKeyV2(pubkey(2)).as_bytes(), idty(false));
    db.identities.upsert(PubKeyKeyV2(pubkey(1)).as_bytes(), idty(true));
    db.apply_dividend(BlockNumber(10), amount(1)).expect("apply");
    let at_10: Vec<_> = contents(&db.uds)
        .into_iter()
        .filter(|(k, _)| UdIdV2::from_bytes(k).expect("a credit").1 == BlockNumber(10))
        .collect();
    assert_eq!(at_10, vec![credit(pubkey(1), 10), credit(pubkey(4), 10), credit(pubkey(6), 10)]);
    assert_eq!(contents(&db.uds).len(), 6);
}

#[test]
fn a_credit_that_was_there_before_is_withdrawn_with_the_others() {
    // A member credited at the block before the apply: the revert does not
    // bring that credit back.
    let mut db = a_member_b_not();
    let (k, v) = credit(pubkey(0xA), 100);
    db.uds.upsert(k, v);
    let (k, v) = credit(pubkey(0xB), 100);
    db.uds.upsert(k, v);
    db.apply_dividend(BlockNumber(100), amount(10)).expect("apply");
    assert_eq!(contents(&db.uds), vec![credit(pubkey(0xA), 100), credit(pubkey(0xB), 100)]);
    db.revert_dividend(BlockNumber(100)).expect("revert");
    assert_eq!(contents(&db.uds), vec![credit(pubkey(0xB), 100)]);
}

#[test]
fn reverting_a_block_that_was_recorded_twice_does_not_restore_the_first() {
    let mut db = a_member_b_not();
    db.apply_dividend(BlockNumber(100), amount(10)).expect("apply");
    db.apply_dividend(BlockNumber(100), amount(12)).expect("apply again");
    assert_eq!(contents(&db.uds_reval), vec![reval_entry(100, 12)]);
    db.revert_dividend(BlockNumber(100)).expect("revert");
    assert!(contents(&db.uds_reval).is_empty());
}

fn tenth(x: i128) -> i128 {
    // Rust's division rounds towards zero.
    x / 10
}

fn exceeds(a: SourceAmount, b: SourceAmount) -> bool {
    let (mut x, mut y) = (a.amount as i128, b.amount as i128);
    let gap = a.base as i128 - b.base as i128;
    for _ in 0..gap.unsigned_abs().min(40) {
        if gap > 0 {
            y = tenth(y);
        } else {
            x = tenth(x);
        }
    }
    x > y
}

#[test]
fn amounts_compare_as_their_units_in_the_higher_base() {
    let units = [i64::MIN, -1_000_000_007, -101, -100, -99, -10, -9, -1, 0, 1, 9, 10, 11, 99, 100,
        12_345, 999_999_999, i64::MAX];
    let bases = [i64::MIN, -70, -65, -64, -20, -3, -1, 0, 1, 2, 3, 18, 19, 20, 63, 64, 65, i64::MAX];
    for &amount_a in &units {
        for &base_a in &bases {
            for &amount_b in &units {
                for &base_b in &bases {
                    let a = SourceAmount { amount: amount_a, base: base_a };
                    let b = SourceAmount { amount: amount_b, base: base_b };
                    assert_eq!(a.gt(&b), exceeds(a, b), "{:?} > {:?}", a, b);
                }
            }
        }
    }
}
