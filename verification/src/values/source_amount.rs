//! Amounts of money: a number of units and the power of ten that they count in.

use crate::bytes::{
    be64_signed, be64_value, from_twos_complement, i64_from_be, i64_to_be, lemma_be64_inverse,
    lemma_be64_signed_injective,
};
use crate::errors::{CorruptedBytes, DecodeFault};
use vstd::prelude::*;
use vstd::slice::slice_subrange;

verus! {

/// An amount: `amount` units of ten to the power `base`.
#[derive(Clone, Copy, Debug, PartialEq, Eq, Hash)]
pub struct SourceAmount {
    pub amount: i64,
    pub base: i64,
}

/// A tenth of `x`, rounded towards zero.
pub open spec fn tenth(x: int) -> int {
    if x >= 0 {
        x / 10
    } else {
        -((-x) / 10)
    }
}

/// `x` after taking a tenth of it `steps` times: the units of an amount counted
/// in a base that is `steps` higher.
pub open spec fn scaled(x: int, steps: nat) -> int
    decreases steps,
{
    if steps == 0 {
        x
    } else {
        scaled(tenth(x), (steps - 1) as nat)
    }
}

/// Ten to the power `n`.
pub open spec fn pow10(n: nat) -> int
    decreases n,
{
    if n == 0 {
        1
    } else {
        10 * pow10((n - 1) as nat)
    }
}

/// A number below ten to the power `n` leaves nothing after `n` tenths.
proof fn lemma_scaled_vanishes(x: int, n: nat)
    requires
        -pow10(n) < x < pow10(n),
    ensures
        scaled(x, n) == 0,
    decreases n,
{
    if n > 0 {
        lemma_scaled_vanishes(tenth(x), (n - 1) as nat);
    }
}

/// The powers of ten grow.
proof fn lemma_pow10_grows(m: nat, n: nat)
    requires
        m <= n,
    ensures
        0 < pow10(m) <= pow10(n),
    decreases n,
{
    if n > 0 {
        if m < n {
            lemma_pow10_grows(m, (n - 1) as nat);
        } else {
            lemma_pow10_grows((m - 1) as nat, (n - 1) as nat);
        }
    }
}

/// Of a sixty-four bit number nothing is left after nineteen tenths or more.
proof fn lemma_scaled_far(x: i64, n: nat)
    requires
        n >= 19,
    ensures
        scaled(x as int, n) == 0,
{
    reveal_with_fuel(pow10, 20);
    assert(pow10(19) == 10_000_000_000_000_000_000int);
    lemma_pow10_grows(19, n);
    lemma_scaled_vanishes(x as int, n);
}

/// The depth up to which amounts of different bases are compared by dubp.
pub const MAX_BASE_GAP: i64 = 64;

/// dubp's `>` on two `SourceAmount`, each built with `new` from its units and base.
/// Believed: it compares as `exceeds` says. It brings the lower base up one step at
/// a time, so the bases must be no further apart than `MAX_BASE_GAP`.
#[verifier::external_body]
fn amount_gt(a: SourceAmount, b: SourceAmount) -> (r: bool)
    requires
        -MAX_BASE_GAP <= a.base - b.base <= MAX_BASE_GAP,
    ensures
        r == a.exceeds(b),
{
    dubp::wallet::prelude::SourceAmount::new(a.amount, a.base)
        > dubp::wallet::prelude::SourceAmount::new(b.amount, b.base)
}

impl SourceAmount {
    /// Whether this amount is strictly more than `other`. Amounts of one base compare
    /// by their units; of two bases, the one of the lower base is first counted in
    /// the higher base, a tenth at a time and rounding towards zero.
    pub open spec fn exceeds(self, other: SourceAmount) -> bool {
        if self.base == other.base {
            self.amount > other.amount
        } else if self.base > other.base {
            self.amount > scaled(other.amount as int, (self.base - other.base) as nat)
        } else {
            scaled(self.amount as int, (other.base - self.base) as nat) > other.amount
        }
    }

    /// The amount of nothing.
    pub fn zero() -> (r: SourceAmount)
        ensures
            r == (SourceAmount { amount: 0, base: 0 }),
    {
        SourceAmount { amount: 0, base: 0 }
    }

    /// Whether this amount is strictly more than `other`.
    pub fn gt(&self, other: &SourceAmount) -> (r: bool)
        ensures
            r == self.exceeds(*other),
    {
        let gap: i128 = (self.base as i128) - (other.base as i128);
        if -(MAX_BASE_GAP as i128) <= gap && gap <= MAX_BASE_GAP as i128 {
            amount_gt(*self, *other)
        } else if gap > 0 {
            proof {
                lemma_scaled_far(other.amount, gap as nat);
            }
            self.amount > 0
        } else {
            proof {
                lemma_scaled_far(self.amount, (-gap) as nat);
            }
            0 > other.amount
        }
    }
}

/// The value of the column of dividend revaluations: the dividend from a block on.
#[derive(Clone, Copy, Debug, PartialEq, Eq, Hash)]
pub struct SourceAmountValV2(pub SourceAmount);

impl SourceAmountValV2 {
    /// The sixteen bytes that are stored: the units, then the base, each big-endian.
    pub open spec fn encoding(&self) -> Seq<u8> {
        be64_signed(self.0.amount) + be64_signed(self.0.base)
    }

    /// The amount that sixteen stored bytes stand for.
    pub open spec fn decoding(bytes: Seq<u8>) -> SourceAmountValV2 {
        SourceAmountValV2(
            SourceAmount {
                amount: from_twos_complement(be64_value(bytes.subrange(0, 8)) as u64),
                base: from_twos_complement(be64_value(bytes.subrange(8, 16)) as u64),
            },
        )
    }

    /// Whether stored bytes decode to an amount: whether there are sixteen of them.
    pub open spec fn decodable(bytes: Seq<u8>) -> bool {
        bytes.len() == 16
    }

    /// The bytes that are stored.
    pub fn as_bytes(&self) -> (r: Vec<u8>)
        ensures
            r@ == self.encoding(),
    {
        let mut r = i64_to_be(self.0.amount);
        let mut base = i64_to_be(self.0.base);
        r.append(&mut base);
        r
    }

    /// The amount that stored bytes decode to. Anything but sixteen bytes is corrupted.
    pub fn from_bytes(bytes: &[u8]) -> (r: Result<Self, CorruptedBytes>)
        ensures
            r is Ok == Self::decodable(bytes@),
            r is Ok ==> r->Ok_0 == Self::decoding(bytes@) && r->Ok_0.encoding() == bytes@,
            r is Err ==> r->Err_0.bytes@ == bytes@ && r->Err_0.fault == (DecodeFault::InvalidLength {
                expected: 16,
                found: bytes@.len() as usize,
            }),
    {
        if bytes.len() != 16 {
            return Err(
                CorruptedBytes::new(
                    bytes,
                    DecodeFault::InvalidLength { expected: 16, found: bytes.len() },
                ),
            );
        }
        let amount = i64_from_be(slice_subrange(bytes, 0, 8));
        let base = i64_from_be(slice_subrange(bytes, 8, 16));
        let r = SourceAmountValV2(SourceAmount { amount, base });
        assert(r.encoding() =~= bytes@);
        Ok(r)
    }
}

/// Decoding is the inverse of encoding, so two amounts with the same stored bytes
/// are the same amount.
pub proof fn lemma_amount_round_trip(a: SourceAmountValV2)
    ensures
        a.encoding().len() == 16,
        SourceAmountValV2::decoding(a.encoding()) == a,
{
    lemma_be64_inverse(0, seq![]);
    let e = a.encoding();
    assert(e.subrange(0, 8) =~= be64_signed(a.0.amount));
    assert(e.subrange(8, 16) =~= be64_signed(a.0.base));
    let b = SourceAmountValV2::decoding(e);
    lemma_be64_inverse(0, be64_signed(a.0.amount));
    lemma_be64_inverse(0, be64_signed(a.0.base));
    lemma_be64_signed_injective(a.0.amount, b.0.amount);
    lemma_be64_signed_injective(a.0.base, b.0.base);
}

} // verus!
