//! Public keys as column keys: as base 58 text, with the reserved key `ALL`,
//! and as raw bytes.

use crate::bytes::bytes_eq;
use crate::errors::{Base58Error, CorruptedBytes, DecodeFault, KvError, KvResult};
use dubp::crypto::bases::b58::ToBase58;
use dubp::crypto::bases::BaseConversionError;
use dubp::crypto::keys::PubKeyFromBytesError;
use vstd::prelude::*;
use vstd::slice::slice_to_vec;
use vstd::string::StringSliceAdditionalSpecFns;
use vstd::utf8::{decode_utf8, valid_utf8};

verus! {

/// An ed25519 public key: thirty-two bytes, and the number of characters `1`
/// that its base 58 text starts with.
#[derive(Clone, Copy, Debug, PartialEq, Eq, Hash, PartialOrd, Ord)]
pub struct PublicKey {
    pub datas: [u8; 32],
    pub count_leading_zero: u8,
}

impl PublicKey {
    /// The key as thirty-three bytes: the data, then the count.
    pub open spec fn bytes(&self) -> Seq<u8> {
        self.datas@.push(self.count_leading_zero)
    }

    /// The key as thirty-three bytes.
    pub fn to_bytes(&self) -> (r: Vec<u8>)
        ensures
            r@ == self.bytes(),
    {
        let mut r: Vec<u8> = Vec::new();
        let mut i: usize = 0;
        while i < 32
            invariant
                i <= 32,
                r@ == self.datas@.take(i as int),
            decreases 32 - i,
        {
            r.push(self.datas[i]);
            assert(self.datas@.take(i as int).push(self.datas@[i as int]) =~= self.datas@.take(
                i + 1,
            ));
            i += 1;
        }
        assert(self.datas@.take(32) =~= self.datas@);
        r.push(self.count_leading_zero);
        r
    }

    /// The key that thirty-three bytes stand for.
    pub(crate) fn from_key_bytes(b: &[u8]) -> (r: PublicKey)
        requires
            b@.len() == 33,
        ensures
            r.bytes() == b@,
    {
        let mut datas: [u8; 32] = [0u8; 32];
        let mut i: usize = 0;
        while i < 32
            invariant
                i <= 32,
                b@.len() == 33,
                forall|j: int| 0 <= j < i ==> datas@[j] == b@[j],
            decreases 32 - i,
        {
            datas[i] = b[i];
            i += 1;
        }
        let r = PublicKey { datas, count_leading_zero: b[32] };
        assert(r.bytes() =~= b@);
        r
    }

    /// Whether two keys are the same: whether they have the same bytes.
    pub fn same(&self, other: &PublicKey) -> (r: bool)
        ensures
            r == (self.bytes() == other.bytes()),
    {
        let mut i: usize = 0;
        while i < 32
            invariant
                i <= 32,
                forall|j: int| 0 <= j < i ==> self.datas@[j] == other.datas@[j],
            decreases 32 - i,
        {
            if self.datas[i] != other.datas[i] {
                assert(self.bytes()[i as int] != other.bytes()[i as int]);
                return false;
            }
            i += 1;
        }
        if self.count_leading_zero != other.count_leading_zero {
            assert(self.bytes()[32] != other.bytes()[32]);
            return false;
        }
        assert(self.bytes() =~= other.bytes());
        true
    }
}

/// What `from_base58` of the ed25519 public key returns for a text, given by its
/// bytes: the thirty-three bytes of the key, or why the text was refused.
pub uninterp spec fn base58_key(text: Seq<u8>) -> Result<Seq<u8>, Base58Error>;

/// The bytes of the text that `to_base58` returns for a key, given by its thirty-three bytes.
pub uninterp spec fn base58_text(key: Seq<u8>) -> Seq<u8>;

/// Every byte is an ASCII character.
pub open spec fn all_ascii(bytes: Seq<u8>) -> bool {
    forall|i: int| 0 <= i < bytes.len() ==> #[trigger] bytes[i] < 128
}

/// The number of characters `1` that a text starts with.
pub open spec fn leading_ones(text: Seq<u8>) -> nat
    decreases text.len(),
{
    if text.len() > 0 && text[0] == 0x31 {
        1 + leading_ones(text.drop_first())
    } else {
        0
    }
}

/// The reserved text `ALL`.
pub open spec fn all_bytes() -> Seq<u8> {
    seq![0x41u8, 0x4Cu8, 0x4Cu8]
}

/// The text `ALL` behind twenty-nine characters `1`.
pub open spec fn all_with_leading_1_bytes() -> Seq<u8> {
    Seq::new(29, |i: int| 0x31u8) + all_bytes()
}

/// The bytes of the key that the text `ALL` stands for: zeros, then `7A A5`, and no leading `1`.
pub open spec fn sentinel_bytes() -> Seq<u8> {
    Seq::new(
        33,
        |i: int|
            if i == 30 {
                0x7Au8
            } else if i == 31 {
                0xA5u8
            } else {
                0u8
            },
    )
}

/// The key that up to thirty-three raw bytes stand for: thirty-three bytes are the
/// key itself, fewer are the end of its data, with zeros before and no leading `1`.
pub open spec fn padded_key(raw: Seq<u8>) -> Seq<u8> {
    if raw.len() == 33 {
        raw
    } else {
        (Seq::new((32 - raw.len()) as nat, |i: int| 0u8) + raw).push(0u8)
    }
}

/// What parsing a base 58 text gives: the bytes of a key, or why the text is refused.
pub open spec fn base58_parse(text: Seq<u8>) -> Result<Seq<u8>, DecodeFault> {
    if !all_ascii(text) {
        Err(DecodeFault::NotAscii)
    } else if leading_ones(text) > 255 {
        Err(DecodeFault::TooManyLeadingOnes)
    } else {
        match base58_key(text) {
            Ok(key) => Ok(key),
            Err(e) => Err(DecodeFault::Base58(e)),
        }
    }
}

/// Calls `from_base58` of dubp's ed25519 `PublicKey` on the text and hands back the
/// key's thirty-three bytes as its `as_ref` gives them, or the error, variant by
/// variant. Believed: the outcome is a function of the text; a key has thirty-three
/// bytes; the text `ALL` gives the key of thirty zero bytes, then `7A A5`, with no
/// leading `1`. The text must be ASCII and start with at most 255 characters `1`.
#[verifier::external_body]
fn base58_decode(text: &[u8]) -> (r: Result<Vec<u8>, Base58Error>)
    requires
        all_ascii(text@),
        leading_ones(text@) <= 255,
    ensures
        r is Ok ==> base58_key(text@) == Ok::<Seq<u8>, Base58Error>(r->Ok_0@),
        r is Err ==> base58_key(text@) == Err::<Seq<u8>, Base58Error>(r->Err_0),
        r is Ok ==> r->Ok_0@.len() == 33,
        text@ == all_bytes() ==> r is Ok && r->Ok_0@ == sentinel_bytes(),
{
    let text = String::from_utf8_lossy(text);
    match <dubp::crypto::keys::ed25519::PublicKey as dubp::crypto::keys::PublicKey>::from_base58(&text) {
        Ok(key) => Ok(key.as_ref().to_vec()),
        Err(BaseConversionError::InvalidLength { expected, found }) => Err(Base58Error::InvalidLength { expected, found }),
        Err(BaseConversionError::InvalidCharacter { character, offset }) => Err(Base58Error::InvalidCharacter { character, offset }),
        Err(BaseConversionError::InvalidBaseConverterLength) => Err(Base58Error::InvalidBaseConverterLength),
        Err(BaseConversionError::InvalidLastSymbol { symbol, offset }) => Err(Base58Error::InvalidLastSymbol { symbol, offset }),
        Err(BaseConversionError::UnknownError) => Err(Base58Error::UnknownError),
    }
}

/// Rebuilds dubp's ed25519 `PublicKey` from its thirty-three bytes and calls its
/// `to_base58`. Believed: the text is a function of the key's bytes.
#[verifier::external_body]
fn base58_encode(key: &[u8]) -> (r: Vec<u8>)
    requires
        key@.len() == 33,
    ensures
        r@ == base58_text(key@),
{
    match dubp::crypto::keys::ed25519::PublicKey::try_from(key) {
        Ok(key) => key.to_base58().into_bytes(),
        Err(_) => Vec::new(),
    }
}

/// Calls `try_from` of dubp's ed25519 `PublicKey` on raw bytes and hands back the
/// key's thirty-three bytes. Believed: more than thirty-three bytes are refused with
/// both lengths; up to thirty-three give the key that `padded_key` describes.
#[verifier::external_body]
fn key_bytes_decode(raw: &[u8]) -> (r: Result<Vec<u8>, DecodeFault>)
    ensures
        raw@.len() <= 33 ==> r is Ok && r->Ok_0@ == padded_key(raw@),
        raw@.len() > 33 ==> r is Err && r->Err_0 == (DecodeFault::InvalidLength {
            expected: 33,
            found: raw@.len() as usize,
        }),
{
    match dubp::crypto::keys::ed25519::PublicKey::try_from(raw) {
        Ok(key) => Ok(key.as_ref().to_vec()),
        Err(PubKeyFromBytesError::InvalidBytesLen { expected, found }) => Err(DecodeFault::InvalidLength { expected, found }),
        Err(PubKeyFromBytesError::InvalidBytesContent) => Err(DecodeFault::Malformed),
    }
}

/// `String::from_utf8`: the text that the bytes encode, if they are UTF-8.
#[verifier::external_body]
fn utf8_string(bytes: Vec<u8>) -> (r: Option<String>)
    ensures
        r is Some == valid_utf8(bytes@),
        r is Some ==> r->Some_0@ == decode_utf8(bytes@),
{
    String::from_utf8(bytes).ok()
}

/// The text that the bytes encode, or the corruption error that says they are not UTF-8.
pub fn text_of_bytes(bytes: &[u8]) -> (r: Result<String, CorruptedBytes>)
    ensures
        r is Ok == valid_utf8(bytes@),
        r is Ok ==> r->Ok_0@ == decode_utf8(bytes@),
        r is Err ==> r->Err_0.bytes@ == bytes@ && r->Err_0.fault == DecodeFault::NotUtf8,
{
    match utf8_string(slice_to_vec(bytes)) {
        Some(text) => Ok(text),
        None => Err(CorruptedBytes::new(bytes, DecodeFault::NotUtf8)),
    }
}

/// Counting the leading `1` may skip a prefix that holds nothing else.
proof fn lemma_leading_ones_skip(text: Seq<u8>, n: int)
    requires
        0 <= n <= text.len(),
        forall|i: int| 0 <= i < n ==> text[i] == 0x31,
    ensures
        leading_ones(text) == n + leading_ones(text.skip(n)),
    decreases n,
{
    if n == 0 {
        assert(text.skip(0) =~= text);
    } else {
        let rest = text.drop_first();
        assert forall|i: int| 0 <= i < n - 1 implies rest[i] == 0x31 by {
            assert(rest[i] == text[i + 1]);
        }
        lemma_leading_ones_skip(rest, n - 1);
        assert(rest.skip(n - 1) =~= text.skip(n));
    }
}

/// Parses the base 58 text of a public key, given as bytes.
pub fn parse_base58(text: &[u8]) -> (r: Result<PublicKey, DecodeFault>)
    ensures
        r is Ok ==> base58_parse(text@) == Ok::<Seq<u8>, DecodeFault>(r->Ok_0.bytes()),
        r is Err ==> base58_parse(text@) == Err::<Seq<u8>, DecodeFault>(r->Err_0),
        text@ == all_bytes() ==> r is Ok && r->Ok_0.bytes() == sentinel_bytes(),
{
    let mut i: usize = 0;
    while i < text.len()
        invariant
            i <= text@.len(),
            forall|j: int| 0 <= j < i ==> #[trigger] text@[j] < 128,
        decreases text@.len() - i,
    {
        if text[i] >= 128 {
            return Err(DecodeFault::NotAscii);
        }
        i += 1;
    }
    let mut ones: usize = 0;
    while ones < text.len() && ones <= 255 && text[ones] == 0x31
        invariant
            ones <= text@.len(),
            ones <= 256,
            forall|j: int| 0 <= j < ones ==> text@[j] == 0x31,
        decreases text@.len() - ones,
    {
        ones += 1;
    }
    proof {
        lemma_leading_ones_skip(text@, ones as int);
        if ones < text@.len() && ones <= 255 {
            assert(text@.skip(ones as int)[0] == text@[ones as int]);
        }
    }
    if ones > 255 {
        return Err(DecodeFault::TooManyLeadingOnes);
    }
    match base58_decode(text) {
        Ok(key) => Ok(PublicKey::from_key_bytes(key.as_slice())),
        Err(e) => Err(DecodeFault::Base58(e)),
    }
}

/// The key of the versioned keyspace whose keys are stored as base 58 text. One
/// key is reserved: [`PubKeyKeyV1::all`], stored as the text `ALL`.
#[derive(Clone, Copy, Debug, PartialEq, Eq, Hash, PartialOrd)]
pub struct PubKeyKeyV1(pub PublicKey);

impl PubKeyKeyV1 {
    /// Whether this is the reserved key.
    pub open spec fn is_all(&self) -> bool {
        self.0.bytes() == sentinel_bytes()
    }

    /// The bytes under which the key is stored: `ALL` for the reserved key; for any
    /// other key its base 58 text, but for a key whose text would be `ALL`, which is
    /// stored with leading `1` instead.
    pub open spec fn encoding(&self) -> Seq<u8> {
        if self.is_all() {
            all_bytes()
        } else if base58_text(self.0.bytes()) == all_bytes() {
            all_with_leading_1_bytes()
        } else {
            base58_text(self.0.bytes())
        }
    }

    /// What stored bytes decode to: the bytes of a key, or why they are refused.
    /// The text `ALL` decodes to the reserved key; any other as base 58.
    pub open spec fn decoding(bytes: Seq<u8>) -> Result<Seq<u8>, DecodeFault> {
        if bytes == all_bytes() {
            Ok(sentinel_bytes())
        } else {
            base58_parse(bytes)
        }
    }

    /// The reserved text.
    fn all_text() -> (r: Vec<u8>)
        ensures
            r@ == all_bytes(),
    {
        let text = "ALL";
        proof {
            reveal_strlit("ALL");
            vstd::string::is_ascii_spec_bytes(text);
        }
        let r = slice_to_vec(text.as_bytes());
        assert(r@ =~= all_bytes());
        r
    }

    /// The text that stands in for a natural text `ALL`.
    fn all_with_leading_1_text() -> (r: Vec<u8>)
        ensures
            r@ == all_with_leading_1_bytes(),
    {
        let text = "11111111111111111111111111111ALL";
        proof {
            reveal_strlit("11111111111111111111111111111ALL");
            vstd::string::is_ascii_spec_bytes(text);
        }
        let r = slice_to_vec(text.as_bytes());
        assert(r@ =~= all_with_leading_1_bytes());
        r
    }

    /// The reserved key, under which a value for the whole column may be stored.
    pub fn all() -> (r: Self)
        ensures
            r.is_all(),
    {
        let text = Self::all_text();
        match parse_base58(text.as_slice()) {
            Ok(key) => PubKeyKeyV1(key),
            Err(_) => vstd::pervasive::unreached(),
        }
    }

    /// The bytes under which the key is stored. Only the reserved key is stored as `ALL`.
    pub fn as_bytes(&self) -> (r: Vec<u8>)
        ensures
            r@ == self.encoding(),
            (r@ == all_bytes()) == self.is_all(),
    {
        let all = Self::all();
        if self.0.same(&all.0) {
            return Self::all_text();
        }
        let natural = base58_encode(self.0.to_bytes().as_slice());
        let reserved = Self::all_text();
        if bytes_eq(natural.as_slice(), reserved.as_slice()) {
            let r = Self::all_with_leading_1_text();
            assert(r@.len() == 32);
            r
        } else {
            natural
        }
    }

    /// The key that stored bytes decode to. The text `ALL` decodes to the reserved key.
    pub fn from_bytes(bytes: &[u8]) -> (r: Result<Self, CorruptedBytes>)
        ensures
            r is Ok ==> Self::decoding(bytes@) == Ok::<Seq<u8>, DecodeFault>(r->Ok_0.0.bytes()),
            r is Err ==> Self::decoding(bytes@) == Err::<Seq<u8>, DecodeFault>(r->Err_0.fault)
                && r->Err_0.bytes@ == bytes@,
            bytes@ == all_bytes() ==> r is Ok && r->Ok_0.is_all(),
    {
        match parse_base58(bytes) {
            Ok(key) => Ok(PubKeyKeyV1(key)),
            Err(fault) => Err(CorruptedBytes::new(bytes, fault)),
        }
    }

    /// The key that a text typed into the explorer stands for.
    pub fn from_explorer_str(source: &str) -> (r: Result<Self, CorruptedBytes>)
        ensures
            r is Ok ==> Self::decoding(source.spec_bytes()) == Ok::<Seq<u8>, DecodeFault>(
                r->Ok_0.0.bytes(),
            ),
            r is Err ==> Self::decoding(source.spec_bytes()) == Err::<Seq<u8>, DecodeFault>(
                r->Err_0.fault,
            ) && r->Err_0.bytes@ == source.spec_bytes(),
    {
        Self::from_bytes(source.as_bytes())
    }

    /// The key as the explorer shows it: its stored bytes as text.
    pub fn to_explorer_string(&self) -> (r: KvResult<String>)
        ensures
            r is Ok == valid_utf8(self.encoding()),
            r is Ok ==> r->Ok_0@ == decode_utf8(self.encoding()),
            r is Err ==> (r->Err_0 matches KvError::CorruptedRecord(c) && c.bytes@
                == self.encoding() && c.fault == DecodeFault::NotUtf8),
    {
        let bytes = self.as_bytes();
        match text_of_bytes(bytes.as_slice()) {
            Ok(text) => Ok(text),
            Err(c) => Err(KvError::CorruptedRecord(c)),
        }
    }
}

/// Only the reserved key is stored under the reserved text: no other key's stored
/// bytes are `ALL`, whatever its base 58 text is. And the reserved text decodes to
/// the reserved key, which is stored as that text.
pub proof fn lemma_only_the_reserved_key_is_stored_as_all(key: PubKeyKeyV1)
    ensures
        (key.encoding() == all_bytes()) == key.is_all(),
        PubKeyKeyV1::decoding(all_bytes()) == Ok::<Seq<u8>, DecodeFault>(sentinel_bytes()),
        key.is_all() ==> PubKeyKeyV1::decoding(key.encoding()) == Ok::<Seq<u8>, DecodeFault>(
            key.0.bytes(),
        ),
{
    assert(all_with_leading_1_bytes().len() == 32);
}

/// The key of the versioned keyspace whose keys are stored as raw bytes.
#[derive(Clone, Copy, Debug, PartialEq, Eq, Hash, PartialOrd)]
pub struct PubKeyKeyV2(pub PublicKey);

impl PubKeyKeyV2 {
    /// The bytes under which the key is stored: its thirty-three bytes.
    pub fn as_bytes(&self) -> (r: Vec<u8>)
        ensures
            r@ == self.0.bytes(),
    {
        self.0.to_bytes()
    }

    /// The key that stored bytes decode to. More than thirty-three bytes are no key.
    pub fn from_bytes(bytes: &[u8]) -> (r: Result<Self, CorruptedBytes>)
        ensures
            bytes@.len() <= 33 ==> r is Ok && r->Ok_0.0.bytes() == padded_key(bytes@),
            bytes@.len() > 33 ==> r is Err && r->Err_0.bytes@ == bytes@ && r->Err_0.fault == (
            DecodeFault::InvalidLength { expected: 33, found: bytes@.len() as usize }),
    {
        match key_bytes_decode(bytes) {
            Ok(key) => {
                assert(padded_key(bytes@).len() == 33);
                Ok(PubKeyKeyV2(PublicKey::from_key_bytes(key.as_slice())))
            },
            Err(fault) => Err(CorruptedBytes::new(bytes, fault)),
        }
    }

    /// The key that a base 58 text typed into the explorer stands for.
    pub fn from_explorer_str(pubkey_str: &str) -> (r: Result<Self, CorruptedBytes>)
        ensures
            r is Ok ==> base58_parse(pubkey_str.spec_bytes()) == Ok::<Seq<u8>, DecodeFault>(
                r->Ok_0.0.bytes(),
            ),
            r is Err ==> base58_parse(pubkey_str.spec_bytes()) == Err::<Seq<u8>, DecodeFault>(
                r->Err_0.fault,
            ) && r->Err_0.bytes@ == pubkey_str.spec_bytes(),
    {
        let text = pubkey_str.as_bytes();
        match parse_base58(text) {
            Ok(key) => Ok(PubKeyKeyV2(key)),
            Err(fault) => Err(CorruptedBytes::new(text, fault)),
        }
    }

    /// The key as the explorer shows it: its base 58 text.
    pub fn to_explorer_string(&self) -> (r: KvResult<String>)
        ensures
            r is Ok == valid_utf8(base58_text(self.0.bytes())),
            r is Ok ==> r->Ok_0@ == decode_utf8(base58_text(self.0.bytes())),
            r is Err ==> (r->Err_0 matches KvError::CorruptedRecord(c) && c.bytes@ == base58_text(
                self.0.bytes(),
            ) && c.fault == DecodeFault::NotUtf8),
    {
        let text = base58_encode(self.0.to_bytes().as_slice());
        match text_of_bytes(text.as_slice()) {
            Ok(text) => Ok(text),
            Err(c) => Err(KvError::CorruptedRecord(c)),
        }
    }
}

/// Decoding is the inverse of encoding: the bytes under which a key is stored
/// decode to that key.
pub proof fn lemma_raw_key_round_trip(key: PubKeyKeyV2)
    ensures
        key.0.bytes().len() == 33,
        padded_key(key.0.bytes()) == key.0.bytes(),
{
}

} // verus!
