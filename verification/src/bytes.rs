//! Byte strings: their lexicographic order and fixed-width big-endian integers.

use vstd::prelude::*;

verus! {

/// Strict lexicographic order on byte strings: the order in which a column is iterated.
pub open spec fn lex_lt(a: Seq<u8>, b: Seq<u8>) -> bool
    decreases a.len(),
{
    if b.len() == 0 {
        false
    } else if a.len() == 0 {
        true
    } else if a[0] != b[0] {
        a[0] < b[0]
    } else {
        lex_lt(a.drop_first(), b.drop_first())
    }
}

/// Non-strict lexicographic order.
pub open spec fn lex_le(a: Seq<u8>, b: Seq<u8>) -> bool {
    a == b || lex_lt(a, b)
}

/// No byte string precedes itself.
pub proof fn lemma_lex_irreflexive(a: Seq<u8>)
    ensures
        !lex_lt(a, a),
    decreases a.len(),
{
    if a.len() > 0 {
        lemma_lex_irreflexive(a.drop_first());
    }
}

/// Two byte strings are never each before the other.
pub proof fn lemma_lex_asymmetric(a: Seq<u8>, b: Seq<u8>)
    requires
        lex_lt(a, b),
    ensures
        !lex_lt(b, a),
    decreases a.len(),
{
    if a.len() > 0 && b.len() > 0 && a[0] == b[0] {
        lemma_lex_asymmetric(a.drop_first(), b.drop_first());
    }
}

/// The order is transitive.
pub proof fn lemma_lex_transitive(a: Seq<u8>, b: Seq<u8>, c: Seq<u8>)
    requires
        lex_lt(a, b),
        lex_lt(b, c),
    ensures
        lex_lt(a, c),
    decreases a.len(),
{
    if a.len() > 0 && b.len() > 0 && c.len() > 0 && a[0] == b[0] && b[0] == c[0] {
        lemma_lex_transitive(a.drop_first(), b.drop_first(), c.drop_first());
    }
}

/// The order is total: two distinct byte strings are ordered one way or the other.
pub proof fn lemma_lex_total(a: Seq<u8>, b: Seq<u8>)
    ensures
        a == b || lex_lt(a, b) || lex_lt(b, a),
    decreases a.len(),
{
    if a.len() == 0 || b.len() == 0 {
        if a.len() == 0 && b.len() == 0 {
            assert(a =~= b);
        }
    } else if a[0] == b[0] {
        lemma_lex_total(a.drop_first(), b.drop_first());
        if a.drop_first() == b.drop_first() {
            assert(a =~= seq![a[0]] + a.drop_first());
            assert(b =~= seq![b[0]] + b.drop_first());
        }
    }
}

/// Dropping a common prefix does not change how two byte strings compare.
pub proof fn lemma_lex_skip_common_prefix(a: Seq<u8>, b: Seq<u8>, n: int)
    requires
        0 <= n <= a.len(),
        n <= b.len(),
        forall|i: int| 0 <= i < n ==> a[i] == b[i],
    ensures
        lex_lt(a, b) == lex_lt(a.skip(n), b.skip(n)),
    decreases n,
{
    if n == 0 {
        assert(a.skip(0) =~= a);
        assert(b.skip(0) =~= b);
    } else {
        let a1 = a.drop_first();
        let b1 = b.drop_first();
        assert forall|i: int| 0 <= i < n - 1 implies a1[i] == b1[i] by {
            assert(a1[i] == a[i + 1]);
            assert(b1[i] == b[i + 1]);
        }
        lemma_lex_skip_common_prefix(a1, b1, n - 1);
        assert(a1.skip(n - 1) =~= a.skip(n));
        assert(b1.skip(n - 1) =~= b.skip(n));
    }
}

/// Where two byte strings first differ, that byte decides their order.
pub proof fn lemma_lex_first_difference(a: Seq<u8>, b: Seq<u8>, n: int)
    requires
        0 <= n < a.len(),
        n < b.len(),
        forall|i: int| 0 <= i < n ==> a[i] == b[i],
        a[n] != b[n],
    ensures
        lex_lt(a, b) == (a[n] < b[n]),
{
    lemma_lex_skip_common_prefix(a, b, n);
    assert(a.skip(n)[0] == a[n]);
    assert(b.skip(n)[0] == b[n]);
}

/// Whether `a` comes strictly before `b` in lexicographic order.
pub fn bytes_lt(a: &[u8], b: &[u8]) -> (r: bool)
    ensures
        r == lex_lt(a@, b@),
{
    let mut i: usize = 0;
    while i < a.len() && i < b.len()
        invariant
            i <= a.len(),
            i <= b.len(),
            forall|j: int| 0 <= j < i ==> a@[j] == b@[j],
        decreases a.len() - i,
    {
        if a[i] != b[i] {
            proof {
                lemma_lex_skip_common_prefix(a@, b@, i as int);
            }
            return a[i] < b[i];
        }
        i += 1;
    }
    proof {
        lemma_lex_skip_common_prefix(a@, b@, i as int);
    }
    i < b.len()
}

/// Whether two byte strings hold the same bytes.
pub fn bytes_eq(a: &[u8], b: &[u8]) -> (r: bool)
    ensures
        r == (a@ == b@),
{
    if a.len() != b.len() {
        return false;
    }
    let mut i: usize = 0;
    while i < a.len()
        invariant
            i <= a.len(),
            a.len() == b.len(),
            forall|j: int| 0 <= j < i ==> a@[j] == b@[j],
        decreases a.len() - i,
    {
        if a[i] != b[i] {
            return false;
        }
        i += 1;
    }
    assert(a@ =~= b@);
    true
}

/// The four bytes of `x`, most significant first.
pub open spec fn be32(x: u32) -> Seq<u8> {
    seq![
        (x / 256 / 256 / 256) as u8,
        (x / 256 / 256 % 256) as u8,
        (x / 256 % 256) as u8,
        (x % 256) as u8,
    ]
}

/// The number whose big-endian bytes are the first four bytes of `s`.
pub open spec fn be32_value(s: Seq<u8>) -> int {
    ((s[0] * 256 + s[1]) * 256 + s[2]) * 256 + s[3]
}

/// The eight bytes of `x`, most significant first.
pub open spec fn be64(x: u64) -> Seq<u8> {
    be32((x / 0x1_0000_0000) as u32) + be32((x % 0x1_0000_0000) as u32)
}

/// The number whose big-endian bytes are the first eight bytes of `s`.
pub open spec fn be64_value(s: Seq<u8>) -> int {
    be32_value(s.subrange(0, 4)) * 0x1_0000_0000 + be32_value(s.subrange(4, 8))
}

/// The two's complement image of a signed number among the unsigned ones.
pub open spec fn twos_complement(x: i64) -> u64 {
    if x >= 0 {
        x as u64
    } else {
        (x + 0x1_0000_0000_0000_0000) as u64
    }
}

/// The signed number that a two's complement image stands for.
pub open spec fn from_twos_complement(u: u64) -> i64 {
    if u < 0x8000_0000_0000_0000 {
        u as i64
    } else {
        (u - 0x1_0000_0000_0000_0000) as i64
    }
}

/// The eight bytes of a signed number in two's complement, most significant first.
pub open spec fn be64_signed(x: i64) -> Seq<u8> {
    be64(twos_complement(x))
}

/// Decoding four big-endian bytes undoes encoding, and encoding undoes decoding.
pub proof fn lemma_be32_inverse(x: u32, s: Seq<u8>)
    ensures
        be32(x).len() == 4,
        be32_value(be32(x)) == x,
        s.len() == 4 ==> 0 <= be32_value(s) <= u32::MAX && be32(be32_value(s) as u32) == s,
{
    if s.len() == 4 {
        assert(be32(be32_value(s) as u32) =~= s);
    }
}

/// Big-endian encoding preserves order: bytes compare as the numbers do.
pub proof fn lemma_be32_order(a: u32, b: u32)
    ensures
        lex_lt(be32(a), be32(b)) == (a < b),
        (be32(a) == be32(b)) == (a == b),
{
    let x = be32(a);
    let y = be32(b);
    lemma_be32_inverse(a, x);
    lemma_be32_inverse(b, y);
    if x[0] != y[0] {
        lemma_lex_first_difference(x, y, 0);
    } else if x[1] != y[1] {
        lemma_lex_first_difference(x, y, 1);
    } else if x[2] != y[2] {
        lemma_lex_first_difference(x, y, 2);
    } else if x[3] != y[3] {
        lemma_lex_first_difference(x, y, 3);
    } else {
        assert(x =~= y);
        lemma_lex_irreflexive(x);
    }
}

/// Decoding eight big-endian bytes undoes encoding, and encoding undoes decoding.
pub proof fn lemma_be64_inverse(x: u64, s: Seq<u8>)
    ensures
        be64(x).len() == 8,
        be64_value(be64(x)) == x,
        s.len() == 8 ==> 0 <= be64_value(s) <= u64::MAX && be64(be64_value(s) as u64) == s,
{
    let high = (x / 0x1_0000_0000) as u32;
    let low = (x % 0x1_0000_0000) as u32;
    lemma_be32_inverse(high, seq![]);
    lemma_be32_inverse(low, seq![]);
    assert(be64(x).subrange(0, 4) =~= be32(high));
    assert(be64(x).subrange(4, 8) =~= be32(low));
    if s.len() == 8 {
        let sh = s.subrange(0, 4);
        let sl = s.subrange(4, 8);
        lemma_be32_inverse(0, sh);
        lemma_be32_inverse(0, sl);
        let v = be64_value(s) as u64;
        assert(v / 0x1_0000_0000 == be32_value(sh));
        assert(v % 0x1_0000_0000 == be32_value(sl));
        assert(be64(v) =~= s);
    }
}

/// The two's complement image and its reading are inverse to each other.
pub proof fn lemma_twos_complement_inverse(x: i64, u: u64)
    ensures
        from_twos_complement(twos_complement(x)) == x,
        twos_complement(from_twos_complement(u)) == u,
{
}

/// Two signed numbers with the same big-endian bytes are the same number.
pub proof fn lemma_be64_signed_injective(a: i64, b: i64)
    requires
        be64_signed(a) == be64_signed(b),
    ensures
        a == b,
{
    lemma_be64_inverse(twos_complement(a), seq![]);
    lemma_be64_inverse(twos_complement(b), seq![]);
    lemma_twos_complement_inverse(a, 0);
    lemma_twos_complement_inverse(b, 0);
}

/// Encodes `x` as four big-endian bytes.
pub fn u32_to_be(x: u32) -> (r: Vec<u8>)
    ensures
        r@ == be32(x),
{
    let mut r: Vec<u8> = Vec::new();
    r.push((x / 256 / 256 / 256) as u8);
    r.push((x / 256 / 256 % 256) as u8);
    r.push((x / 256 % 256) as u8);
    r.push((x % 256) as u8);
    assert(r@ =~= be32(x));
    r
}

/// Decodes four big-endian bytes.
pub(crate) fn u32_from_be(b: &[u8]) -> (r: u32)
    requires
        b@.len() == 4,
    ensures
        r == be32_value(b@),
        be32(r) == b@,
{
    let b0: u32 = b[0] as u32;
    let b1: u32 = b[1] as u32;
    let b2: u32 = b[2] as u32;
    let b3: u32 = b[3] as u32;
    let r: u32 = ((b0 * 256 + b1) * 256 + b2) * 256 + b3;
    proof {
        lemma_be32_inverse(r, b@);
    }
    r
}

/// Encodes `x` as eight big-endian bytes.
pub fn u64_to_be(x: u64) -> (r: Vec<u8>)
    ensures
        r@ == be64(x),
{
    let mut r: Vec<u8> = u32_to_be((x / 0x1_0000_0000) as u32);
    let mut low: Vec<u8> = u32_to_be((x % 0x1_0000_0000) as u32);
    r.append(&mut low);
    r
}

/// Decodes eight big-endian bytes.
pub(crate) fn u64_from_be(b: &[u8]) -> (r: u64)
    requires
        b@.len() == 8,
    ensures
        r == be64_value(b@),
        be64(r) == b@,
{
    let high: u32 = u32_from_be(vstd::slice::slice_subrange(b, 0, 4));
    let low: u32 = u32_from_be(vstd::slice::slice_subrange(b, 4, 8));
    let r: u64 = (high as u64) * 0x1_0000_0000 + (low as u64);
    proof {
        lemma_be64_inverse(r, b@);
    }
    r
}

/// Encodes a signed number as eight big-endian bytes in two's complement.
pub fn i64_to_be(x: i64) -> (r: Vec<u8>)
    ensures
        r@ == be64_signed(x),
{
    let u: u64 = if x >= 0 {
        x as u64
    } else {
        ((x - i64::MIN) as u64) + 0x8000_0000_0000_0000u64
    };
    u64_to_be(u)
}

/// Decodes eight big-endian bytes as a signed number in two's complement.
pub(crate) fn i64_from_be(b: &[u8]) -> (r: i64)
    requires
        b@.len() == 8,
    ensures
        r == from_twos_complement(be64_value(b@) as u64),
        be64_signed(r) == b@,
{
    let u: u64 = u64_from_be(b);
    let r: i64 = if u < 0x8000_0000_0000_0000u64 {
        u as i64
    } else {
        ((u - 0x8000_0000_0000_0000u64) as i64) + i64::MIN
    };
    proof {
        lemma_twos_complement_inverse(r, u);
    }
    r
}

} // verus!
