//! What can go wrong when stored bytes are read back.

use vstd::prelude::*;

verus! {

/// Why a text was refused as base 58.
#[derive(Clone, Copy, Debug, PartialEq, Eq)]
pub enum Base58Error {
    /// The data have a length other than the expected one.
    InvalidLength { expected: usize, found: usize },
    /// A character outside the alphabet, and where it stands.
    InvalidCharacter { character: char, offset: usize },
    /// The text is too long to convert.
    InvalidBaseConverterLength,
    /// A last symbol that cannot end a text, and where it stands.
    InvalidLastSymbol { symbol: u8, offset: usize },
    /// No more is known.
    UnknownError,
}

/// Why stored bytes do not decode to the type they were read as.
#[derive(Clone, Copy, Debug, PartialEq, Eq)]
pub enum DecodeFault {
    /// The bytes are not UTF-8 text.
    NotUtf8,
    /// The text holds a character outside ASCII.
    NotAscii,
    /// The text starts with more than 255 characters `1`.
    TooManyLeadingOnes,
    /// The text is not base 58.
    Base58(Base58Error),
    /// The bytes have a length that the type does not have.
    InvalidLength { expected: usize, found: usize },
    /// A byte that must be 0 or 1 is neither.
    InvalidFlag { flag: u8 },
    /// The record does not deserialize.
    Malformed,
}

/// Stored bytes that failed to decode: the bytes themselves, and the diagnostic.
#[derive(Clone, Debug, PartialEq, Eq)]
pub struct CorruptedBytes {
    pub bytes: Vec<u8>,
    pub fault: DecodeFault,
}

/// An invariant of the store that a write operation found broken.
#[derive(Clone, Copy, Debug, PartialEq, Eq)]
pub enum Violation {
    /// A block was to be reverted while no dividend revaluation is recorded.
    EmptyRevalHistory,
}

/// An error of the store. Each is fatal for the operation that met it.
#[derive(Clone, Debug, PartialEq, Eq)]
pub enum KvError {
    /// Stored bytes do not decode to their declared type.
    CorruptedRecord(CorruptedBytes),
    /// The store is not in a state that the operation can start from.
    InvariantViolation(Violation),
}

pub type KvResult<T> = Result<T, KvError>;

/// What an error of the store says, as plain values.
pub enum Failure {
    Corrupted { bytes: Seq<u8>, fault: DecodeFault },
    Violated(Violation),
}

impl View for KvError {
    type V = Failure;

    open spec fn view(&self) -> Failure {
        match self {
            KvError::CorruptedRecord(c) => Failure::Corrupted { bytes: c.bytes@, fault: c.fault },
            KvError::InvariantViolation(v) => Failure::Violated(*v),
        }
    }
}

impl CorruptedBytes {
    /// The corruption error for `bytes` with the diagnostic `fault`.
    pub fn new(bytes: &[u8], fault: DecodeFault) -> (r: CorruptedBytes)
        ensures
            r.bytes@ == bytes@,
            r.fault == fault,
    {
        CorruptedBytes { bytes: vstd::slice::slice_to_vec(bytes), fault }
    }
}

} // verus!
