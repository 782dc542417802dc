//! Canonical textual forms of addresses and networks.
//!
//! IPv4 is the usual dotted decimal.  IPv6 is lowercase hexadecimal
//! groups without leading zeros, the longest run of two or more zero
//! groups (leftmost on a tie) compressed to `::`, and IPv4-mapped
//! addresses written with an embedded dotted-decimal tail.  A network
//! is its address followed by `/` and the prefix length in decimal.

use vstd::prelude::*;

use crate::addr::{Cidr, IpAddress};

verus! {

/// The decimal digits of `n`, for `n` up to 255.
pub open spec fn dec_str(n: int) -> Seq<u8>
    recommends
        0 <= n <= 255,
{
    if n < 10 {
        seq![(48 + n) as u8]
    } else if n < 100 {
        seq![(48 + n / 10) as u8, (48 + n % 10) as u8]
    } else {
        seq![(48 + n / 100) as u8, (48 + (n / 10) % 10) as u8, (48 + n % 10) as u8]
    }
}

/// The lowercase hexadecimal digit for `d` below 16.
pub open spec fn hex_chr(d: int) -> u8
    recommends
        0 <= d < 16,
{
    if d < 10 {
        (48 + d) as u8
    } else {
        (87 + d) as u8
    }
}

/// The lowercase hexadecimal digits of `g`, without leading zeros,
/// for `g` up to 0xffff.
pub open spec fn hex_str(g: int) -> Seq<u8>
    recommends
        0 <= g <= 0xffff,
{
    if g < 0x10 {
        seq![hex_chr(g)]
    } else if g < 0x100 {
        seq![hex_chr(g / 16), hex_chr(g % 16)]
    } else if g < 0x1000 {
        seq![hex_chr(g / 256), hex_chr((g / 16) % 16), hex_chr(g % 16)]
    } else {
        seq![hex_chr(g / 4096), hex_chr((g / 256) % 16), hex_chr((g / 16) % 16), hex_chr(g % 16)]
    }
}

/// Dotted-decimal text of an IPv4 address value.
pub open spec fn spec_fmt_ipv4(x: u32) -> Seq<u8> {
    dec_str(((x >> 24u32) & 0xff) as int) + seq![46u8] + dec_str(((x >> 16u32) & 0xff) as int)
        + seq![46u8] + dec_str(((x >> 8u32) & 0xff) as int) + seq![46u8] + dec_str((x & 0xff) as int)
}

/// Group `k` of an IPv6 address value, most significant first.
pub open spec fn spec_group(x: u128, k: int) -> u16
    recommends
        0 <= k < 8,
{
    ((x >> (((7 - k) * 16) as u128)) & 0xffff) as u16
}

/// The eight groups of an IPv6 address value.
pub open spec fn spec_groups_of(x: u128) -> Seq<u16> {
    Seq::new(8, |k: int| spec_group(x, k))
}

/// Length of the run of zero groups starting at `i`.
pub open spec fn run_len(gs: Seq<u16>, i: int) -> int
    recommends
        0 <= i <= gs.len(),
    decreases gs.len() - i,
{
    if 0 <= i < gs.len() && gs[i] == 0 {
        1 + run_len(gs, i + 1)
    } else {
        0
    }
}

/// Start of the longest zero run at or after `i`, leftmost on ties.
pub open spec fn best_run_start(gs: Seq<u16>, i: int) -> int
    recommends
        0 <= i <= gs.len(),
    decreases gs.len() - i,
{
    if i >= gs.len() {
        i
    } else {
        let rest = best_run_start(gs, i + 1);
        if run_len(gs, i) >= run_len(gs, rest) {
            i
        } else {
            rest
        }
    }
}

/// Groups `gs[i..j)` in hexadecimal, joined with single colons.
pub open spec fn join_hex(gs: Seq<u16>, i: int, j: int) -> Seq<u8>
    recommends
        0 <= i,
        j <= gs.len(),
    decreases j - i,
{
    if i >= j {
        Seq::empty()
    } else if i + 1 == j {
        hex_str(gs[i] as int)
    } else {
        hex_str(gs[i] as int) + seq![58u8] + join_hex(gs, i + 1, j)
    }
}

/// Canonical text of an IPv6 address value.
pub open spec fn spec_fmt_ipv6(x: u128) -> Seq<u8> {
    let gs = spec_groups_of(x);
    if gs[0] == 0 && gs[1] == 0 && gs[2] == 0 && gs[3] == 0 && gs[4] == 0 && gs[5] == 0xffff {
        seq![58u8, 58u8, 102u8, 102u8, 102u8, 102u8, 58u8] + spec_fmt_ipv4((x & 0xffff_ffff) as u32)
    } else {
        let b = best_run_start(gs, 0);
        let rl = run_len(gs, b);
        if rl >= 2 {
            join_hex(gs, 0, b) + seq![58u8, 58u8] + join_hex(gs, b + rl, 8)
        } else {
            join_hex(gs, 0, 8)
        }
    }
}

/// Canonical text of an address of either family.
pub open spec fn spec_fmt_ip(a: IpAddress) -> Seq<u8> {
    match a {
        IpAddress::V4(x) => spec_fmt_ipv4(x),
        IpAddress::V6(x) => spec_fmt_ipv6(x),
    }
}

/// Text of a network: its address, `/`, and the prefix length.
pub open spec fn spec_fmt_cidr(c: Cidr) -> Seq<u8> {
    spec_fmt_ip(c.addr) + seq![47u8] + dec_str(c.prefix as int)
}

/// The characters an ASCII byte string spells.
pub open spec fn ascii_chars_of(b: Seq<u8>) -> Seq<char> {
    b.map_values(|x: u8| x as char)
}

/// Append the decimal digits of `n`.
fn push_dec(out: &mut Vec<u8>, n: u8)
    ensures
        final(out)@ == old(out)@ + dec_str(n as int),
        forall|i: int|
            old(out)@.len() <= i < final(out)@.len() ==> 48 <= #[trigger] final(out)@[i] < 128,
{
    if n < 10 {
        out.push(48 + n);
        assert(out@ =~= old(out)@ + dec_str(n as int));
    } else if n < 100 {
        out.push(48 + n / 10);
        out.push(48 + n % 10);
        assert(out@ =~= old(out)@ + dec_str(n as int));
    } else {
        out.push(48 + n / 100);
        out.push(48 + (n / 10) % 10);
        out.push(48 + n % 10);
        assert(out@ =~= old(out)@ + dec_str(n as int));
    }
}

/// Append the lowercase hexadecimal digits of `g`, no leading zeros.
fn push_hex(out: &mut Vec<u8>, g: u16)
    ensures
        final(out)@ == old(out)@ + hex_str(g as int),
        forall|i: int|
            old(out)@.len() <= i < final(out)@.len() ==> 48 <= #[trigger] final(out)@[i] < 128,
{
    let c = |d: u16| -> (r: u8)
        requires
            d < 16,
        ensures
            r == hex_chr(d as int),
            48 <= r < 128,
        { if d < 10 {
            (48 + d) as u8
        } else {
            (87 + d) as u8
        } };
    if g < 0x10 {
        out.push(c(g));
        assert(out@ =~= old(out)@ + hex_str(g as int));
    } else if g < 0x100 {
        out.push(c(g / 16));
        out.push(c(g % 16));
        assert(out@ =~= old(out)@ + hex_str(g as int));
    } else if g < 0x1000 {
        out.push(c(g / 256));
        out.push(c((g / 16) % 16));
        out.push(c(g % 16));
        assert(out@ =~= old(out)@ + hex_str(g as int));
    } else {
        out.push(c(g / 4096));
        out.push(c((g / 256) % 16));
        out.push(c((g / 16) % 16));
        out.push(c(g % 16));
        assert(out@ =~= old(out)@ + hex_str(g as int));
    }
}

/// Append the dotted-decimal text of an IPv4 value.
fn push_ipv4(out: &mut Vec<u8>, x: u32)
    ensures
        final(out)@ == old(out)@ + spec_fmt_ipv4(x),
        forall|i: int|
            old(out)@.len() <= i < final(out)@.len() ==> 46 <= #[trigger] final(out)@[i] < 128,
{
    proof {
        assert((x >> 24u32) & 0xff < 256 && (x >> 16u32) & 0xff < 256 && (x >> 8u32) & 0xff < 256
            && x & 0xff < 256) by (bit_vector);
    }
    push_dec(out, ((x >> 24u32) & 0xff) as u8);
    out.push(46);
    push_dec(out, ((x >> 16u32) & 0xff) as u8);
    out.push(46);
    push_dec(out, ((x >> 8u32) & 0xff) as u8);
    out.push(46);
    push_dec(out, (x & 0xff) as u8);
    assert(out@ =~= old(out)@ + spec_fmt_ipv4(x));
}

/// The eight groups of an IPv6 value, most significant first.
fn groups_of(x: u128) -> (r: Vec<u16>)
    ensures
        r@ == spec_groups_of(x),
        r@.len() == 8,
{
    let mut r: Vec<u16> = Vec::new();
    let mut k: usize = 0;
    while k < 8
        invariant
            k <= 8,
            r@.len() == k,
            forall|j: int| 0 <= j < k ==> r@[j] == spec_group(x, j),
        decreases 8 - k,
    {
        let sh: u32 = 112 - 16 * (k as u32);
        proof {
            let s = sh as u128;
            assert((x >> s) & 0xffff < 0x10000) by (bit_vector);
        }
        let g = ((x >> (sh as u128)) & 0xffff) as u16;
        r.push(g);
        k = k + 1;
    }
    assert(r@ =~= spec_groups_of(x));
    r
}

/// Length of the zero run starting at `i`.
fn run_len_at(gs: &Vec<u16>, i: usize) -> (r: usize)
    requires
        i <= gs@.len(),
    ensures
        r == run_len(gs@, i as int),
        i + r <= gs@.len(),
    decreases gs@.len() - i,
{
    if i < gs.len() && gs[i] == 0 {
        let rest = run_len_at(gs, i + 1);
        1 + rest
    } else {
        0
    }
}

/// Start of the longest zero run at or after `i`, leftmost on ties.
fn best_start_at(gs: &Vec<u16>, i: usize) -> (r: usize)
    requires
        i <= gs@.len(),
    ensures
        r == best_run_start(gs@, i as int),
        i <= r <= gs@.len(),
    decreases gs@.len() - i,
{
    if i >= gs.len() {
        i
    } else {
        let rest = best_start_at(gs, i + 1);
        if run_len_at(gs, i) >= run_len_at(gs, rest) {
            i
        } else {
            rest
        }
    }
}

/// Append groups `gs[i..j)` in hexadecimal, joined with colons.
fn join_into(out: &mut Vec<u8>, gs: &Vec<u16>, i: usize, j: usize)
    requires
        j <= gs@.len(),
    ensures
        final(out)@ == old(out)@ + join_hex(gs@, i as int, j as int),
        forall|i2: int|
            old(out)@.len() <= i2 < final(out)@.len() ==> 48 <= #[trigger] final(out)@[i2] < 128,
    decreases j - i,
{
    if i >= j {
        assert(out@ =~= old(out)@ + join_hex(gs@, i as int, j as int));
        return ;
    }
    push_hex(out, gs[i]);
    if i + 1 < j {
        out.push(58);
        join_into(out, gs, i + 1, j);
    }
    assert(out@ =~= old(out)@ + join_hex(gs@, i as int, j as int));
}

/// The canonical text of an IPv6 value.
fn fmt_ipv6_bytes(x: u128) -> (r: Vec<u8>)
    ensures
        r@ == spec_fmt_ipv6(x),
        forall|i: int| 0 <= i < r@.len() ==> #[trigger] r@[i] < 128,
{
    let gs = groups_of(x);
    let mut out: Vec<u8> = Vec::new();
    if gs[0] == 0 && gs[1] == 0 && gs[2] == 0 && gs[3] == 0 && gs[4] == 0 && gs[5] == 0xffff {
        out.push(58);
        out.push(58);
        out.push(102);
        out.push(102);
        out.push(102);
        out.push(102);
        out.push(58);
        proof {
            assert(x & 0xffff_ffff < 0x1_0000_0000) by (bit_vector);
        }
        push_ipv4(&mut out, (x & 0xffff_ffff) as u32);
        assert(out@ =~= spec_fmt_ipv6(x));
    } else {
        let b = best_start_at(&gs, 0);
        let rl = run_len_at(&gs, b);
        if rl >= 2 {
            join_into(&mut out, &gs, 0, b);
            out.push(58);
            out.push(58);
            join_into(&mut out, &gs, b + rl, 8);
            assert(out@ =~= spec_fmt_ipv6(x));
        } else {
            join_into(&mut out, &gs, 0, 8);
            assert(out@ =~= spec_fmt_ipv6(x));
        }
    }
    out
}

/// The canonical text of an address, as bytes.
pub fn fmt_ip_bytes(a: &IpAddress) -> (r: Vec<u8>)
    ensures
        r@ == spec_fmt_ip(*a),
        forall|i: int| 0 <= i < r@.len() ==> #[trigger] r@[i] < 128,
{
    match a {
        IpAddress::V4(x) => {
            let mut out: Vec<u8> = Vec::new();
            push_ipv4(&mut out, *x);
            assert(out@ =~= spec_fmt_ipv4(*x));
            out
        },
        IpAddress::V6(x) => fmt_ipv6_bytes(*x),
    }
}

/// The text of a network, as bytes.
pub fn fmt_cidr_bytes(c: &Cidr) -> (r: Vec<u8>)
    ensures
        r@ == spec_fmt_cidr(*c),
        forall|i: int| 0 <= i < r@.len() ==> #[trigger] r@[i] < 128,
{
    let mut out = fmt_ip_bytes(&c.addr);
    out.push(47);
    push_dec(&mut out, c.prefix);
    assert(out@ =~= spec_fmt_cidr(*c));
    out
}

/// Relies on `String::from_utf8`: a byte string of ASCII bytes cannot
/// be rejected, and decodes to the string whose characters have those
/// code points — so re-encoding the result gives the bytes back.
#[verifier::external_body]
pub fn string_from_ascii(v: Vec<u8>) -> (r: String)
    requires
        forall|i: int| 0 <= i < v@.len() ==> #[trigger] v@[i] < 128,
    ensures
        r@ == ascii_chars_of(v@),
        vstd::utf8::is_ascii_chars(r@),
        vstd::utf8::encode_utf8(r@) == v@,
{
    match String::from_utf8(v) {
        Ok(s) => s,
        Err(_) => String::new(),
    }
}

/// The canonical text of an address.
pub fn ip_to_string(a: &IpAddress) -> (r: String)
    ensures
        r@ == ascii_chars_of(spec_fmt_ip(*a)),
{
    string_from_ascii(fmt_ip_bytes(a))
}

/// The text of a network.
pub fn cidr_to_string(c: &Cidr) -> (r: String)
    ensures
        r@ == ascii_chars_of(spec_fmt_cidr(*c)),
{
    string_from_ascii(fmt_cidr_bytes(c))
}

} // verus!
