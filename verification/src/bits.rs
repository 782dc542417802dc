//! Bit-level helpers shared by the address types and the prefix trie.
//!
//! Both address families are carried in a `u128`; an IPv4 address sits
//! in the low 32 bits.  Bit positions count from the most significant
//! bit of the family's address space: position 0 is the top bit,
//! position `total - 1` the bottom one.  Prefix agreement is stated by
//! shifting the host bits away, which keeps every proof obligation
//! quantifier-free.

use vstd::prelude::*;

verus! {

/// Bit `i` of `b`, counting from the most significant bit of a
/// `total`-bit address space held in the low `total` bits of `b`.
pub open spec fn bit_at(b: u128, i: int, total: int) -> bool
    recommends
        0 <= i < total <= 128,
{
    (b >> ((total - 1 - i) as u128)) & 1 == 1
}

/// `b` fits in `total` bits: everything above the address space is zero.
pub open spec fn fits(b: u128, total: int) -> bool
    recommends
        0 < total <= 128,
{
    total == 128 || b >> (total as u128) == 0
}

/// The first `len` bits of `a` and `b` agree: shifting the other
/// `total - len` bits away leaves the same value.
pub open spec fn prefix_eq(a: u128, b: u128, len: int, total: int) -> bool
    recommends
        0 <= len <= total <= 128,
{
    a >> ((total - len) as u128) == b >> ((total - len) as u128)
}

/// A canonical prefix value: fits the address space and has all bits
/// at position `len` and beyond cleared.
pub open spec fn is_prefix_bits(b: u128, len: int, total: int) -> bool
    recommends
        0 <= len <= total <= 128,
{
    fits(b, total) && ((b >> ((total - len) as u128)) << ((total - len) as u128)) == b
}

/// Shifting one more place is shifting the shifted value by one.
proof fn lemma_shift_one_more(x: u128, s: u128)
    by (bit_vector)
    requires
        s < 128,
    ensures
        x >> (s + 1) == (x >> s) >> 1,
{
}

/// Agreement on a prefix extends to every shorter prefix.
pub proof fn lemma_prefix_eq_shorten(a: u128, b: u128, len: int, len2: int, total: int)
    requires
        0 <= len2 <= len <= total <= 128,
        prefix_eq(a, b, len, total),
    ensures
        prefix_eq(a, b, len2, total),
    decreases len - len2,
{
    if len2 < len {
        let s = (total - len) as u128;
        lemma_shift_one_more(a, s);
        lemma_shift_one_more(b, s);
        assert(prefix_eq(a, b, len - 1, total));
        lemma_prefix_eq_shorten(a, b, len - 1, len2, total);
    }
}

/// Values that agree on a prefix read the same bit anywhere inside it.
pub proof fn lemma_prefix_eq_bit(a: u128, b: u128, len: int, i: int, total: int)
    requires
        0 <= i < len <= total <= 128,
        prefix_eq(a, b, len, total),
    ensures
        bit_at(a, i, total) == bit_at(b, i, total),
{
    let s = (total - len) as u128;
    let j = (total - 1 - i) as u128;
    assert(a >> s == b >> s ==> (a >> j) & 1 == (b >> j) & 1) by (bit_vector)
        requires
            s <= j < 128,
    ;
}

/// Agreement on the first `len` bits together with an equal bit at
/// position `len` is agreement on the first `len + 1` bits.
pub proof fn lemma_prefix_eq_extend(a: u128, b: u128, len: int, total: int)
    requires
        0 <= len < total <= 128,
        prefix_eq(a, b, len, total),
        bit_at(a, len, total) == bit_at(b, len, total),
    ensures
        prefix_eq(a, b, len + 1, total),
{
    let s = (total - len) as u128;
    let j = (total - 1 - len) as u128;
    assert((a >> s == b >> s && ((a >> j) & 1 == 1 <==> (b >> j) & 1 == 1)) ==> a >> j == b >> j)
        by (bit_vector)
        requires
            j < 128,
            s == j + 1,
    ;
}

/// Two canonical prefixes of one length that agree on it are equal.
pub proof fn lemma_prefix_bits_unique(a: u128, b: u128, len: int, total: int)
    requires
        0 <= len <= total <= 128,
        0 < total,
        is_prefix_bits(a, len, total),
        is_prefix_bits(b, len, total),
        prefix_eq(a, b, len, total),
    ensures
        a == b,
{
    let s = (total - len) as u128;
    assert((a >> s == b >> s && ((a >> s) << s) == a && ((b >> s) << s) == b) ==> a == b)
        by (bit_vector)
        requires
            s <= 128,
    ;
}

/// Values that fit the address space agree on a zero-length prefix.
pub proof fn lemma_prefix_eq_zero(a: u128, b: u128, total: int)
    requires
        0 < total <= 128,
        fits(a, total),
        fits(b, total),
    ensures
        prefix_eq(a, b, 0, total),
{
    if total == 128 {
        assert(a >> 128u128 == 0 && b >> 128u128 == 0) by (bit_vector);
    }
}

/// Read one bit of a carrier value.
pub fn get_bit(b: u128, i: u8, total: u8) -> (r: bool)
    requires
        i < total,
        total <= 128,
    ensures
        r == bit_at(b, i as int, total as int),
{
    let shift: u8 = total - 1 - i;
    (b >> (shift as u128)) & 1 == 1
}

/// The value whose first `len` bits are those of `b` and whose other
/// bits are zero.
pub open spec fn spec_mask_value(b: u128, len: int, total: int) -> u128
    recommends
        0 <= len <= total <= 128,
{
    if total - len >= 128 {
        0u128
    } else {
        (b >> ((total - len) as u128)) << ((total - len) as u128)
    }
}

/// The masked value is the canonical prefix of `b` at length `len`.
#[verifier::rlimit(100)]
pub proof fn lemma_mask_value(b: u128, len: int, total: int)
    requires
        0 <= len <= total <= 128,
        0 < total,
        fits(b, total),
    ensures
        is_prefix_bits(spec_mask_value(b, len, total), len, total),
        prefix_eq(spec_mask_value(b, len, total), b, len, total),
        fits(spec_mask_value(b, len, total), total),
{
    let s = (total - len) as u128;
    if total - len >= 128 {
        assert(b >> 128u128 == 0) by (bit_vector);
        assert((0u128 >> 128u128) << 128u128 == 0u128) by (bit_vector);
        assert(0u128 >> 128u128 == 0u128) by (bit_vector);
    } else {
        let r0 = (b >> s) << s;
        assert(((r0 >> s) << s) == r0 && r0 >> s == b >> s) by (bit_vector)
            requires
                s < 128,
                r0 == (b >> s) << s,
        ;
        if total < 128 {
            let t = total as u128;
            assert(b >> t == 0 ==> r0 >> t == 0) by (bit_vector)
                requires
                    s <= t < 128,
                    r0 == (b >> s) << s,
            ;
        }
    }
}

/// Copy the first `len` bits of `src`, leaving every other bit zero:
/// the canonical prefix value of `src` at length `len`.
pub fn mask_prefix(src: u128, len: u8, total: u8) -> (r: u128)
    requires
        len <= total,
        0 < total,
        total <= 128,
        fits(src, total as int),
    ensures
        r == spec_mask_value(src, len as int, total as int),
        is_prefix_bits(r, len as int, total as int),
        prefix_eq(r, src, len as int, total as int),
{
    proof {
        lemma_mask_value(src, len as int, total as int);
    }
    let shift: u8 = total - len;
    if shift >= 128 {
        0u128
    } else {
        (src >> (shift as u128)) << (shift as u128)
    }
}

/// The length of the longest common prefix of `a` and `b`, capped at
/// `max_len`; if shorter than the cap, the bit right after it differs.
pub fn common_prefix_len(a: u128, b: u128, max_len: u8, total: u8) -> (r: u8)
    requires
        max_len <= total,
        0 < total <= 128,
        fits(a, total as int),
        fits(b, total as int),
    ensures
        r <= max_len,
        prefix_eq(a, b, r as int, total as int),
        r < max_len ==> bit_at(a, r as int, total as int) != bit_at(b, r as int, total as int),
{
    let mut i: u8 = 0;
    proof {
        lemma_prefix_eq_zero(a, b, total as int);
    }
    while i < max_len
        invariant
            i <= max_len,
            max_len <= total,
            0 < total <= 128,
            prefix_eq(a, b, i as int, total as int),
        decreases max_len - i,
    {
        if get_bit(a, i, total) != get_bit(b, i, total) {
            return i;
        }
        proof {
            lemma_prefix_eq_extend(a, b, i as int, total as int);
        }
        i = i + 1;
    }
    i
}

} // verus!
