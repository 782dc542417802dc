//! Byte encodings of store keys: four raw octets for an exact IPv4
//! address, sixteen for IPv6, and the network octets followed by one
//! prefix byte for a CIDR.

use vstd::prelude::*;

verus! {

/// The four big-endian octets of an IPv4 address value.
pub open spec fn spec_ip4_key(x: u32) -> Seq<u8> {
    seq![
        ((x >> 24u32) & 0xff) as u8,
        ((x >> 16u32) & 0xff) as u8,
        ((x >> 8u32) & 0xff) as u8,
        (x & 0xff) as u8,
    ]
}

/// The sixteen big-endian octets of an IPv6 address value.
pub open spec fn spec_ip6_key(x: u128) -> Seq<u8> {
    Seq::new(16, |i: int| ((x >> (((15 - i) * 8) as u128)) & 0xff) as u8)
}

/// The five-byte CIDR key of an IPv4 network: octets then prefix.
pub open spec fn spec_cidr4_key(bits: u128, prefix: u8) -> Seq<u8> {
    spec_ip4_key(bits as u32) + seq![prefix]
}

/// The seventeen-byte CIDR key of an IPv6 network.
pub open spec fn spec_cidr6_key(bits: u128, prefix: u8) -> Seq<u8> {
    spec_ip6_key(bits) + seq![prefix]
}

/// Distinct IPv4 values have distinct key octets.
pub proof fn lemma_ip4_key_injective(a: u32, b: u32)
    requires
        spec_ip4_key(a) == spec_ip4_key(b),
    ensures
        a == b,
{
    assert(spec_ip4_key(a)[0] == spec_ip4_key(b)[0]);
    assert(spec_ip4_key(a)[1] == spec_ip4_key(b)[1]);
    assert(spec_ip4_key(a)[2] == spec_ip4_key(b)[2]);
    assert(spec_ip4_key(a)[3] == spec_ip4_key(b)[3]);
    assert((((a >> 24u32) & 0xff) as u8 == ((b >> 24u32) & 0xff) as u8 && ((a >> 16u32) & 0xff)
        as u8 == ((b >> 16u32) & 0xff) as u8 && ((a >> 8u32) & 0xff) as u8 == ((b >> 8u32) & 0xff)
        as u8 && (a & 0xff) as u8 == (b & 0xff) as u8) ==> a == b) by (bit_vector);
}

/// Rebuilding an IPv6 value from its own key octets gives it back.
proof fn lemma_ip6_val_of_key_id(a: u128, n: int)
    requires
        0 <= n <= 16,
    ensures
        spec_ip6_prefix_val(spec_ip6_key(a), n) == (if n == 0 {
            0u128
        } else {
            a >> (((16 - n) * 8) as u128)
        }),
    decreases n,
{
    if n > 0 {
        lemma_ip6_val_of_key_id(a, n - 1);
        let k = spec_ip6_key(a);
        let prev = spec_ip6_prefix_val(k, n - 1);
        let s = ((16 - n) * 8) as u128;
        assert(k[n - 1] == ((a >> s) & 0xff) as u8);
        if n == 1 {
            assert((0u128 << 8) | ((((a >> s) & 0xff) as u8) as u128) == a >> s ==> true)
                by (bit_vector);
            assert(s == 120);
            assert((0u128 << 8) | ((((a >> 120u128) & 0xff) as u8) as u128) == a >> 120u128)
                by (bit_vector);
        } else {
            assert(prev == a >> (s + 8));
            assert(((a >> (s + 8)) << 8) | ((((a >> s) & 0xff) as u8) as u128) == a >> s)
                by (bit_vector)
                requires
                    s <= 112,
            ;
        }
    }
}

/// Distinct IPv6 values have distinct key octets.
pub proof fn lemma_ip6_key_injective(a: u128, b: u128)
    requires
        spec_ip6_key(a) == spec_ip6_key(b),
    ensures
        a == b,
{
    lemma_ip6_val_of_key_id(a, 16);
    lemma_ip6_val_of_key_id(b, 16);
    assert(a >> 0u128 == a && b >> 0u128 == b) by (bit_vector);
}

/// Build the exact-IPv4 key.
pub fn ip4_key(x: u32) -> (r: Vec<u8>)
    ensures
        r@ == spec_ip4_key(x),
{
    proof {
        assert((x >> 24u32) & 0xff < 256 && (x >> 16u32) & 0xff < 256 && (x >> 8u32) & 0xff < 256
            && x & 0xff < 256) by (bit_vector);
    }
    let mut r: Vec<u8> = Vec::new();
    r.push(((x >> 24u32) & 0xff) as u8);
    r.push(((x >> 16u32) & 0xff) as u8);
    r.push(((x >> 8u32) & 0xff) as u8);
    r.push((x & 0xff) as u8);
    assert(r@ =~= spec_ip4_key(x));
    r
}

/// Build the exact-IPv6 key.
pub fn ip6_key(x: u128) -> (r: Vec<u8>)
    ensures
        r@ == spec_ip6_key(x),
{
    let mut r: Vec<u8> = Vec::new();
    let mut k: usize = 0;
    while k < 16
        invariant
            k <= 16,
            r@.len() == k,
            forall|i: int| 0 <= i < k ==> r@[i] == spec_ip6_key(x)[i],
        decreases 16 - k,
    {
        let sh: u32 = 120 - 8 * (k as u32);
        proof {
            let s = sh as u128;
            assert((x >> s) & 0xff < 256) by (bit_vector);
        }
        r.push(((x >> (sh as u128)) & 0xff) as u8);
        k = k + 1;
    }
    assert(r@ =~= spec_ip6_key(x));
    r
}

/// Build the IPv4 CIDR key.
pub fn cidr4_key(bits: u128, prefix: u8) -> (r: Vec<u8>)
    requires
        crate::bits::fits(bits, 32),
    ensures
        r@ == spec_cidr4_key(bits, prefix),
{
    proof {
        assert(bits >> 32u128 == 0 ==> bits < 0x1_0000_0000) by (bit_vector);
    }
    let mut r = ip4_key(bits as u32);
    r.push(prefix);
    assert(r@ =~= spec_cidr4_key(bits, prefix));
    r
}

/// Build the IPv6 CIDR key.
pub fn cidr6_key(bits: u128, prefix: u8) -> (r: Vec<u8>)
    ensures
        r@ == spec_cidr6_key(bits, prefix),
{
    let mut r = ip6_key(bits);
    r.push(prefix);
    assert(r@ =~= spec_cidr6_key(bits, prefix));
    r
}

/// Decode an exact-IPv4 key.
pub fn ip4_of_key(k: &[u8]) -> (r: Option<u32>)
    ensures
        match r {
            Some(x) => spec_ip4_key(x) == k@,
            None => k@.len() != 4,
        },
{
    if k.len() != 4 {
        return None;
    }
    let b0 = k[0];
    let b1 = k[1];
    let b2 = k[2];
    let b3 = k[3];
    let x: u32 = ((b0 as u32) << 24u32) | ((b1 as u32) << 16u32) | ((b2 as u32) << 8u32) | (
    b3 as u32);
    proof {
        lemma_u32_from_bytes(b0, b1, b2, b3);
        assert(spec_ip4_key(x) =~= k@);
    }
    Some(x)
}

/// The octets of a value rebuilt from four octets are those octets.
proof fn lemma_u32_from_bytes(b0: u8, b1: u8, b2: u8, b3: u8)
    by (bit_vector)
    ensures
        ({
            let x = ((b0 as u32) << 24u32) | ((b1 as u32) << 16u32) | ((b2 as u32) << 8u32) | (
            b3 as u32);
            &&& ((x >> 24u32) & 0xff) as u8 == b0
            &&& ((x >> 16u32) & 0xff) as u8 == b1
            &&& ((x >> 8u32) & 0xff) as u8 == b2
            &&& (x & 0xff) as u8 == b3
        }),
{
}

/// One step of rebuilding a value from big-endian octets.
proof fn lemma_u128_byte_step(acc: u128, b: u8, j: u128)
    by (bit_vector)
    requires
        acc >> 120 == 0,
    ensures
        ((acc << 8) | (b as u128)) & 0xff == b as u128,
        j < 128 ==> (((acc << 8) | (b as u128)) >> 8) == acc,
        ((acc << 8) | (b as u128)) >> 120 == 0 || acc >> 112 != 0,
{
}

/// Decode an exact-IPv6 key.
pub fn ip6_of_key(k: &[u8]) -> (r: Option<u128>)
    ensures
        match r {
            Some(x) => spec_ip6_key(x) == k@,
            None => k@.len() != 16,
        },
{
    if k.len() != 16 {
        return None;
    }
    let mut x: u128 = 0;
    let mut i: usize = 0;
    proof {
        assert(1u128 << 0u128 == 1) by (bit_vector);
    }
    while i < 16
        invariant
            i <= 16,
            k@.len() == 16,
            x == spec_ip6_prefix_val(k@, i as int),
            x < (1u128 << ((8 * i) as u128)) || i == 16,
        decreases 16 - i,
    {
        let b = k[i];
        proof {
            let s = (8 * i) as u128;
            assert((x < (1u128 << s) && s <= 112) ==> (x << 8) | (b as u128) < (1u128 << (s + 8)))
                by (bit_vector);
        }
        x = (x << 8u128) | (b as u128);
        i = i + 1;
    }
    proof {
        lemma_ip6_prefix_val_bytes(k@, 16);
        assert(spec_ip6_key(x) =~= k@);
    }
    Some(x)
}

/// The value of the first `n` octets of a sixteen-octet key.
pub open spec fn spec_ip6_prefix_val(k: Seq<u8>, n: int) -> u128
    recommends
        0 <= n <= 16,
        k.len() == 16,
    decreases n,
{
    if n <= 0 {
        0u128
    } else {
        ((spec_ip6_prefix_val(k, n - 1) << 8u128) | (k[n - 1] as u128)) as u128
    }
}

/// The rebuilt value's octets are the key's octets.
#[verifier::rlimit(100)]
proof fn lemma_ip6_prefix_val_bytes(k: Seq<u8>, n: int)
    requires
        k.len() == 16,
        0 <= n <= 16,
    ensures
        spec_ip6_prefix_val(k, n) < (1u128 << ((8 * n) as u128)) || n == 16,
        forall|i: int|
            0 <= i < n ==> ((spec_ip6_prefix_val(k, n) >> (((n - 1 - i) * 8) as u128)) & 0xff) as u8
                == k[i],
    decreases n,
{
    if n == 0 {
        assert(1u128 << 0u128 == 1) by (bit_vector);
    }
    if n > 0 {
        lemma_ip6_prefix_val_bytes(k, n - 1);
        let prev = spec_ip6_prefix_val(k, n - 1);
        let b = k[n - 1];
        let x = spec_ip6_prefix_val(k, n);
        let s = (8 * (n - 1)) as u128;
        assert(prev < (1u128 << s) || s == 128);
        if n < 16 {
            assert((prev < (1u128 << s) && s <= 112 && x == ((prev << 8) | (b as u128))) ==> x < (
            1u128 << (s + 8))) by (bit_vector);
        }
        assert((prev < (1u128 << s) && s <= 120 && x == ((prev << 8) | (b as u128))) ==> (x & 0xff
            == b as u128 && x >> 8 == prev)) by (bit_vector);
        assert forall|i: int| 0 <= i < n implies ((x >> (((n - 1 - i) * 8) as u128)) & 0xff) as u8
            == k[i] by {
            if i == n - 1 {
                assert((x & 0xff == b as u128) ==> (x >> 0u128) & 0xff == b as u128)
                    by (bit_vector);
            } else {
                let sh = ((n - 1 - i) * 8) as u128;
                let sh2 = ((n - 2 - i) * 8) as u128;
                assert(((prev >> sh2) & 0xff) as u8 == k[i]);
                assert((x >> 8 == prev && sh == sh2 + 8 && sh2 <= 112) ==> (x >> sh) & 0xff == (
                prev >> sh2) & 0xff) by (bit_vector);
            }
        }
    }
}

/// Decode an IPv4 CIDR key.
pub fn cidr4_of_key(k: &[u8]) -> (r: Option<(u128, u8)>)
    ensures
        match r {
            Some((bits, prefix)) => spec_cidr4_key(bits, prefix) == k@ && crate::bits::fits(
                bits,
                32,
            ),
            None => k@.len() != 5,
        },
{
    if k.len() != 5 {
        return None;
    }
    let head = vstd::slice::slice_subrange(k, 0, 4);
    let x = match ip4_of_key(head) {
        Some(x) => x,
        None => {
            return None;
        },
    };
    let prefix = k[4];
    proof {
        crate::addr::lemma_u32_carrier_fits(x);
        assert(spec_cidr4_key(x as u128, prefix) =~= k@) by {
            assert(x as u128 as u32 == x);
            assert(spec_ip4_key(x) =~= k@.subrange(0, 4));
        }
    }
    Some((x as u128, prefix))
}

/// Decode an IPv6 CIDR key.
pub fn cidr6_of_key(k: &[u8]) -> (r: Option<(u128, u8)>)
    ensures
        match r {
            Some((bits, prefix)) => spec_cidr6_key(bits, prefix) == k@,
            None => k@.len() != 17,
        },
{
    if k.len() != 17 {
        return None;
    }
    let head = vstd::slice::slice_subrange(k, 0, 16);
    let x = match ip6_of_key(head) {
        Some(x) => x,
        None => {
            return None;
        },
    };
    let prefix = k[16];
    proof {
        assert(spec_cidr6_key(x, prefix) =~= k@) by {
            assert(spec_ip6_key(x) =~= k@.subrange(0, 16));
        }
    }
    Some((x, prefix))
}

} // verus!
