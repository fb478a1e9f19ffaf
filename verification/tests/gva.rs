use duniter_ledger::bc::BcV2Db;
use duniter_ledger::cm::{CmAccessor, CurrentMeta};
use duniter_ledger::errors::{Base58Error, CorruptedBytes, DecodeFault, KvError};
use duniter_ledger::gva::bca::{
    exec_req_last_blockstamp_out_of_fork_window, BcaRespTypeV0, ExecReqTypeError,
};
use duniter_ledger::gva::idty::{Identity, IdtyQuery, QueryError};
use duniter_ledger::gva::new_blocks::{Block, BlockFields, NewBlocksSubscription};
use duniter_ledger::keys::block_number::{BlockNumber, U32BE};
use duniter_ledger::keys::pubkey::PubKeyKeyV2;
use duniter_ledger::transaction::Event;
use duniter_ledger::values::block_meta::{BlockHash, BlockMetaV2, Blockstamp};
use duniter_ledger::values::idty_db::IdtyDbV2;

fn meta(number: u32) -> BlockMetaV2 {
    BlockMetaV2 { number, hash: BlockHash([number as u8; 32]) }
}

fn store_block(db: &mut BcV2Db, block: BlockMetaV2) {
    db.blocks_meta.upsert(U32BE(block.number).as_bytes(), block.as_bytes());
}

fn upsert(block: BlockMetaV2) -> Event {
    Event::Upsert { key: Vec::new(), value: block.as_bytes() }
}

#[test]
fn test_exec_req_last_blockstamp_out_of_fork_window_no_blockchain() {
    let cm = CmAccessor::new();
    let db = BcV2Db::new();

    let resp_res = exec_req_last_blockstamp_out_of_fork_window(
        cm.get_current_meta(|cm| cm.current_block_meta.number),
        &db,
    );

    assert_eq!(resp_res, Err(ExecReqTypeError::NoBlockchain));
}

#[test]
fn test_exec_req_last_blockstamp_out_of_fork_window_ok() {
    let mut cm = CmAccessor::new();
    cm.refresh(&[upsert(CurrentMeta::default().current_block_meta)]).expect("refresh");
    let mut db = BcV2Db::new();
    store_block(&mut db, BlockMetaV2::default());

    let resp = exec_req_last_blockstamp_out_of_fork_window(
        cm.get_current_meta(|cm| cm.current_block_meta.number),
        &db,
    );

    assert_eq!(resp, Ok(BcaRespTypeV0::LastBlockstampOutOfForkWindow(Blockstamp::default())));
}

#[test]
fn the_fork_window_is_101_blocks_deep() {
    let mut db = BcV2Db::new();
    for number in [0, 1, 99, 899] {
        store_block(&mut db, meta(number));
    }
    let stamp = |number: u32| {
        Ok(BcaRespTypeV0::LastBlockstampOutOfForkWindow(Blockstamp {
            number: BlockNumber(number),
            hash: BlockHash([number as u8; 32]),
        }))
    };
    assert_eq!(exec_req_last_blockstamp_out_of_fork_window(Some(0), &db), stamp(0));
    assert_eq!(exec_req_last_blockstamp_out_of_fork_window(Some(100), &db), stamp(0));
    assert_eq!(exec_req_last_blockstamp_out_of_fork_window(Some(101), &db), stamp(0));
    assert_eq!(exec_req_last_blockstamp_out_of_fork_window(Some(102), &db), stamp(1));
    assert_eq!(exec_req_last_blockstamp_out_of_fork_window(Some(200), &db), stamp(99));
    assert_eq!(exec_req_last_blockstamp_out_of_fork_window(Some(1000), &db), stamp(899));
    assert_eq!(
        exec_req_last_blockstamp_out_of_fork_window(Some(u32::MAX), &db),
        Err(ExecReqTypeError::BlockNotFound(BlockNumber(u32::MAX - 101)))
    );
}

#[test]
fn a_corrupted_block_fails_the_request() {
    let mut db = BcV2Db::new();
    db.blocks_meta.upsert(U32BE(0).as_bytes(), vec![1, 2, 3]);
    assert_eq!(
        exec_req_last_blockstamp_out_of_fork_window(Some(5), &db),
        Err(ExecReqTypeError::Store(KvError::CorruptedRecord(CorruptedBytes {
            bytes: vec![1, 2, 3],
            fault: DecodeFault::InvalidLength { expected: 36, found: 3 },
        })))
    );
    assert_eq!(db.block(U32BE(7)), Ok(None));
}

#[test]
fn test_idty() {
    let pubkey = "DnjL6hYA1k7FavGHbbir79PKQbmzw63d6bsamBBdUULP";
    let mut db = BcV2Db::new();
    let key = PubKeyKeyV2::from_explorer_str(pubkey).expect("wrong pubkey");
    db.identities.upsert(key.as_bytes(), IdtyDbV2 { member: true, data: Vec::new() }.as_bytes());
    assert_eq!(db.pubkey_is_member(key.0), Ok(Some(true)));
    assert_eq!(IdtyQuery.idty(&db, pubkey), Ok(Identity { is_member: true }));
}

#[test]
fn an_unknown_or_former_member_is_no_member() {
    let pubkey = "DnjL6hYA1k7FavGHbbir79PKQbmzw63d6bsamBBdUULP";
    let mut db = BcV2Db::new();
    assert_eq!(IdtyQuery.idty(&db, pubkey), Ok(Identity { is_member: false }));
    let key = PubKeyKeyV2::from_explorer_str(pubkey).expect("wrong pubkey");
    assert_eq!(db.pubkey_is_member(key.0), Ok(None));
    db.identities
        .upsert(key.as_bytes(), IdtyDbV2 { member: false, data: b"bob".to_vec() }.as_bytes());
    assert_eq!(db.pubkey_is_member(key.0), Ok(Some(false)));
    assert_eq!(IdtyQuery.idty(&db, pubkey), Ok(Identity::default()));
}

#[test]
fn idty_refuses_a_wrong_pubkey_and_a_corrupted_record() {
    let mut db = BcV2Db::new();
    assert_eq!(
        IdtyQuery.idty(&db, "wrong pubkey"),
        Err(QueryError::InvalidPubkey(DecodeFault::Base58(Base58Error::InvalidCharacter {
            character: ' ',
            offset: 5,
        })))
    );
    assert_eq!(
        IdtyQuery.idty(&db, "clé"),
        Err(QueryError::InvalidPubkey(DecodeFault::NotAscii))
    );
    let pubkey = "DnjL6hYA1k7FavGHbbir79PKQbmzw63d6bsamBBdUULP";
    let key = PubKeyKeyV2::from_explorer_str(pubkey).expect("wrong pubkey");
    db.identities.upsert(key.as_bytes(), vec![7]);
    assert_eq!(
        IdtyQuery.idty(&db, pubkey),
        Err(QueryError::Store(KvError::CorruptedRecord(CorruptedBytes {
            bytes: vec![7],
            fault: DecodeFault::InvalidFlag { flag: 7 },
        })))
    );
}

#[test]
fn identities_are_stored_flag_first() {
    let idty = IdtyDbV2 { member: true, data: vec![9, 8] };
    assert_eq!(idty.as_bytes(), vec![1, 9, 8]);
    assert_eq!(IdtyDbV2::from_bytes(&[1, 9, 8]), Ok(idty));
    assert_eq!(IdtyDbV2::from_bytes(&[0]), Ok(IdtyDbV2 { member: false, data: Vec::new() }));
    assert_eq!(IdtyDbV2::member_flag(&[0, 5]), Ok(false));
    assert_eq!(IdtyDbV2::member_flag(&[1]), Ok(true));
    let err = IdtyDbV2::from_bytes(&[]).expect_err("empty");
    assert_eq!(err.fault, DecodeFault::InvalidLength { expected: 1, found: 0 });
    let err = IdtyDbV2::member_flag(&[2]).expect_err("flag");
    assert_eq!(err.fault, DecodeFault::InvalidFlag { flag: 2 });
}

#[test]
fn blocks_are_stored_number_first() {
    let block = BlockMetaV2 { number: 0x01020304, hash: BlockHash([0xAB; 32]) };
    let mut expected = vec![1, 2, 3, 4];
    expected.extend_from_slice(&[0xAB; 32]);
    assert_eq!(block.as_bytes(), expected);
    assert_eq!(BlockMetaV2::from_bytes(&expected), Ok(block));
    let err = BlockMetaV2::from_bytes(&expected[1..]).expect_err("thirty-five bytes");
    assert_eq!(err.fault, DecodeFault::InvalidLength { expected: 36, found: 35 });
    assert_eq!(err.bytes, expected[1..].to_vec());
}

#[test]
fn the_accessor_is_empty_until_a_block_is_upserted() {
    let mut cm = CmAccessor::new();
    assert_eq!(cm.current_block_number(), None);
    assert_eq!(cm.get_current_meta(|cm| *cm), None);
    cm.refresh(&[]).expect("empty batch");
    cm.refresh(&[Event::Remove { key: Vec::new() }]).expect("removal only");
    assert_eq!(cm.current_block_number(), None);
    cm.refresh(&[upsert(meta(4)), upsert(meta(5)), Event::Remove { key: Vec::new() }])
        .expect("two upserts");
    assert_eq!(cm.current_block_number(), Some(5));
    assert_eq!(
        cm.get_current_meta(|cm| cm.current_block_meta.hash),
        Some(BlockHash([5; 32]))
    );
    assert_eq!(cm.get_current_meta(|cm| *cm), Some(CurrentMeta { current_block_meta: meta(5) }));
}

#[test]
fn a_corrupted_head_leaves_the_accessor_as_it_was() {
    let mut cm = CmAccessor::new();
    cm.refresh(&[upsert(meta(4))]).expect("upsert");
    let bad = Event::Upsert { key: Vec::new(), value: vec![0; 35] };
    assert_eq!(
        cm.refresh(&[upsert(meta(9)), bad]),
        Err(KvError::CorruptedRecord(CorruptedBytes {
            bytes: vec![0; 35],
            fault: DecodeFault::InvalidLength { expected: 36, found: 35 },
        }))
    );
    assert_eq!(cm.current_block_number(), Some(4));
    // Only the last upsert is read.
    let bad = Event::Upsert { key: Vec::new(), value: vec![0; 35] };
    cm.refresh(&[bad, upsert(meta(10))]).expect("last upsert is sound");
    assert_eq!(cm.current_block_number(), Some(10));
}

#[test]
fn new_blocks_sends_the_upserted_blocks_in_order() {
    let events = vec![
        upsert(meta(7)),
        Event::Remove { key: Vec::new() },
        upsert(meta(8)),
        upsert(meta(6)),
    ];
    assert_eq!(
        NewBlocksSubscription.new_blocks(&events),
        Ok(Some(vec![
            Block { number: 7, hash: BlockHash([7; 32]) },
            Block { number: 8, hash: BlockHash([8; 32]) },
            Block { number: 6, hash: BlockHash([6; 32]) },
        ]))
    );
    assert_eq!(Block::from_meta(&meta(3)), Block { number: 3, hash: BlockHash([3; 32]) });
}

#[test]
fn new_blocks_sends_nothing_without_an_upsert() {
    assert_eq!(NewBlocksSubscription.new_blocks(&[]), Ok(None));
    let events = vec![Event::Remove { key: Vec::new() }, Event::Remove { key: vec![1] }];
    assert_eq!(NewBlocksSubscription.new_blocks(&events), Ok(None));
}

#[test]
fn new_blocks_reports_the_first_corrupted_block() {
    let events = vec![
        upsert(meta(7)),
        Event::Upsert { key: Vec::new(), value: vec![1; 37] },
        Event::Upsert { key: Vec::new(), value: vec![2; 3] },
    ];
    assert_eq!(
        NewBlocksSubscription.new_blocks(&events),
        Err(KvError::CorruptedRecord(CorruptedBytes {
            bytes: vec![1; 37],
            fault: DecodeFault::InvalidLength { expected: 36, found: 37 },
        }))
    );
}

#[test]
fn only_metadata_is_needed_when_no_other_field_is_asked_for() {
    let subscription = NewBlocksSubscription::default();
    assert!(subscription.meta_only(&BlockFields::default()));
    let asked = [
        BlockFields { identities: true, ..BlockFields::default() },
        BlockFields { joiners: true, ..BlockFields::default() },
        BlockFields { actives: true, ..BlockFields::default() },
        BlockFields { leavers: true, ..BlockFields::default() },
        BlockFields { revoked: true, ..BlockFields::default() },
        BlockFields { excluded: true, ..BlockFields::default() },
        BlockFields { certifications: true, ..BlockFields::default() },
        BlockFields { transactions: true, ..BlockFields::default() },
    ];
    for fields in asked {
        assert!(!subscription.meta_only(&fields));
    }
}
