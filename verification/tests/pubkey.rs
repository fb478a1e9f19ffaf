use duniter_ledger::errors::{Base58Error, DecodeFault};
use duniter_ledger::keys::pubkey::{parse_base58, text_of_bytes, PubKeyKeyV1, PubKeyKeyV2, PublicKey};

const ALL_WITH_LEADING_1: &str = "11111111111111111111111111111ALL";
const PUBKEY: &str = "DnjL6hYA1k7FavGHbbir79PKQbmzw63d6bsamBBdUULP";

fn sentinel() -> PublicKey {
    let mut datas = [0u8; 32];
    datas[30] = 0x7A;
    datas[31] = 0xA5;
    PublicKey { datas, count_leading_zero: 0 }
}

#[test]
fn pubkey_all() {
    let all = PubKeyKeyV1::all();
    assert_eq!(all.as_bytes(), "ALL".as_bytes())
}

#[test]
fn all_is_the_key_of_the_text_all() {
    assert_eq!(PubKeyKeyV1::all().0, sentinel());
    assert_eq!(parse_base58(b"ALL"), Ok(sentinel()));
}

#[test]
fn sentinel_bytes_decode_to_the_sentinel() {
    assert_eq!(PubKeyKeyV1::from_bytes(b"ALL"), Ok(PubKeyKeyV1::all()));
}

#[test]
fn only_the_sentinel_is_stored_as_all() {
    let with_ones = PubKeyKeyV1::from_bytes(ALL_WITH_LEADING_1.as_bytes()).expect("valid text");
    assert_ne!(with_ones, PubKeyKeyV1::all());
    assert_eq!(with_ones.0.count_leading_zero, 29);
    assert_eq!(with_ones.as_bytes(), ALL_WITH_LEADING_1.as_bytes());
    let ordinary = PubKeyKeyV1::from_bytes(PUBKEY.as_bytes()).expect("valid text");
    assert_eq!(ordinary.as_bytes(), PUBKEY.as_bytes());
}

#[test]
fn v1_round_trip_of_an_ordinary_key() {
    let key = PubKeyKeyV1::from_bytes(PUBKEY.as_bytes()).expect("valid text");
    assert_eq!(PubKeyKeyV1::from_bytes(&key.as_bytes()), Ok(key));
    assert_eq!(key.to_explorer_string(), Ok(PUBKEY.to_owned()));
    assert_eq!(PubKeyKeyV1::from_explorer_str(PUBKEY), Ok(key));
}

#[test]
fn v1_refuses_what_is_not_base58() {
    let err = PubKeyKeyV1::from_bytes(b"A0L").expect_err("0 is no base 58 character");
    assert_eq!(err.bytes, b"A0L".to_vec());
    assert_eq!(
        err.fault,
        DecodeFault::Base58(Base58Error::InvalidCharacter { character: '0', offset: 1 })
    );
}

#[test]
fn v1_refuses_what_is_not_ascii() {
    let err = PubKeyKeyV1::from_bytes(&[0x41, 0xC3, 0xA9]).expect_err("not ASCII");
    assert_eq!(err.bytes, vec![0x41, 0xC3, 0xA9]);
    assert_eq!(err.fault, DecodeFault::NotAscii);
    let err = PubKeyKeyV1::from_bytes(&[0xFF]).expect_err("not ASCII");
    assert_eq!(err.fault, DecodeFault::NotAscii);
}

#[test]
fn v1_refuses_more_than_255_leading_ones() {
    let text = vec![0x31u8; 256];
    let err = PubKeyKeyV1::from_bytes(&text).expect_err("too many");
    assert_eq!(err.fault, DecodeFault::TooManyLeadingOnes);
    assert_eq!(err.bytes, text);
    let text = vec![0x31u8; 255];
    let key = PubKeyKeyV1::from_bytes(&text).expect("255 fit");
    assert_eq!(key.0.count_leading_zero, 255);
    assert_eq!(key.0.datas, [0u8; 32]);
    assert_eq!(key.as_bytes(), text);
}

#[test]
fn empty_text_is_the_zero_key() {
    let key = PubKeyKeyV1::from_bytes(b"").expect("empty text");
    assert_eq!(key.0, PublicKey { datas: [0u8; 32], count_leading_zero: 0 });
}

#[test]
fn v2_stores_thirty_three_bytes() {
    let key = PubKeyKeyV2::from_explorer_str(PUBKEY).expect("valid text");
    let bytes = key.as_bytes();
    assert_eq!(bytes.len(), 33);
    assert_eq!(&bytes[..32], &key.0.datas[..]);
    assert_eq!(bytes[32], key.0.count_leading_zero);
    assert_eq!(PubKeyKeyV2::from_bytes(&bytes), Ok(key));
    assert_eq!(key.to_explorer_string(), Ok(PUBKEY.to_owned()));
}

#[test]
fn v2_pads_short_keys_with_zeros() {
    let key = PubKeyKeyV2::from_bytes(&[0x7A, 0xA5]).expect("short");
    assert_eq!(key.0, sentinel());
    let key = PubKeyKeyV2::from_bytes(&[]).expect("empty");
    assert_eq!(key.0, PublicKey { datas: [0u8; 32], count_leading_zero: 0 });
    let mut raw = vec![9u8; 33];
    raw[32] = 4;
    let key = PubKeyKeyV2::from_bytes(&raw).expect("full");
    assert_eq!(key.0, PublicKey { datas: [9u8; 32], count_leading_zero: 4 });
}

#[test]
fn v2_refuses_more_than_thirty_three_bytes() {
    let raw = vec![1u8; 34];
    let err = PubKeyKeyV2::from_bytes(&raw).expect_err("too long");
    assert_eq!(err.bytes, raw);
    assert_eq!(err.fault, DecodeFault::InvalidLength { expected: 33, found: 34 });
}

#[test]
fn v2_explorer_text_must_be_base58() {
    let err = PubKeyKeyV2::from_explorer_str("wrong pubkey").expect_err("a space");
    assert_eq!(
        err.fault,
        DecodeFault::Base58(Base58Error::InvalidCharacter { character: ' ', offset: 5 })
    );
    assert_eq!(err.bytes, b"wrong pubkey".to_vec());
}

#[test]
fn same_compares_all_bytes() {
    let a = sentinel();
    let mut b = sentinel();
    assert!(a.same(&b));
    b.count_leading_zero = 29;
    assert!(!a.same(&b));
    let mut c = sentinel();
    c.datas[0] = 1;
    assert!(!a.same(&c));
    assert_eq!(PubKeyKeyV2::from_bytes(&a.to_bytes()), Ok(PubKeyKeyV2(a)));
}

#[test]
fn text_of_bytes_wants_utf8() {
    assert_eq!(text_of_bytes(b"ALL"), Ok("ALL".to_owned()));
    let err = text_of_bytes(&[0xFF, 0x41]).expect_err("not UTF-8");
    assert_eq!(err.fault, DecodeFault::NotUtf8);
    assert_eq!(err.bytes, vec![0xFF, 0x41]);
}
