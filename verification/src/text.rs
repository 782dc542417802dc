//! Textual forms of addresses and networks: the accepted grammar is
//! written down as specification functions over byte strings, and the
//! executable parsers are proved to return exactly what the grammar
//! denotes.
//!
//! IPv4 text is four decimal octets, each without leading zeros.  IPv6
//! text is up to eight hexadecimal groups separated by single colons,
//! with one optional `::` standing for a run of zero groups, and an
//! optional embedded IPv4 tail in place of the last two groups.  A
//! network is an address, `/`, and a decimal prefix length.

use vstd::prelude::*;
use vstd::string::StringSliceAdditionalSpecFns;

use crate::addr::{Cidr, IpAddress};

verus! {

pub open spec fn is_dec_digit(b: u8) -> bool {
    48 <= b <= 57
}

pub open spec fn dec_digit_val(b: u8) -> int {
    b - 48
}

pub open spec fn is_hex_digit(b: u8) -> bool {
    is_dec_digit(b) || (97 <= b <= 102) || (65 <= b <= 70)
}

pub open spec fn hex_digit_val(b: u8) -> int {
    if is_dec_digit(b) {
        b - 48
    } else if 97 <= b <= 102 {
        b - 87
    } else {
        b - 55
    }
}

/// Position of the first byte at or after `i` that is not a decimal
/// digit (the string length if there is none).
pub open spec fn dec_run_end(s: Seq<u8>, i: int) -> int
    recommends
        0 <= i <= s.len(),
    decreases s.len() - i,
{
    if 0 <= i < s.len() && is_dec_digit(s[i]) {
        dec_run_end(s, i + 1)
    } else {
        i
    }
}

/// Position of the first byte at or after `i` that is not a
/// hexadecimal digit.
pub open spec fn hex_run_end(s: Seq<u8>, i: int) -> int
    recommends
        0 <= i <= s.len(),
    decreases s.len() - i,
{
    if 0 <= i < s.len() && is_hex_digit(s[i]) {
        hex_run_end(s, i + 1)
    } else {
        i
    }
}

/// The value of the decimal digits `s[i..j)`.
pub open spec fn dec_value(s: Seq<u8>, i: int, j: int) -> int
    recommends
        0 <= i <= j <= s.len(),
    decreases j - i,
{
    if i < j {
        dec_value(s, i, j - 1) * 10 + dec_digit_val(s[j - 1])
    } else {
        0
    }
}

/// The value of the hexadecimal digits `s[i..j)`.
pub open spec fn hex_value(s: Seq<u8>, i: int, j: int) -> int
    recommends
        0 <= i <= j <= s.len(),
    decreases j - i,
{
    if i < j {
        hex_value(s, i, j - 1) * 16 + hex_digit_val(s[j - 1])
    } else {
        0
    }
}

/// A valid decimal octet occupies `s[i..e)`: one to three digits, no
/// leading zero, value at most 255.
pub open spec fn octet_ok(s: Seq<u8>, i: int, e: int) -> bool {
    &&& i < e <= s.len()
    &&& e - i <= 3
    &&& (s[i] == 48 ==> e == i + 1)
    &&& dec_value(s, i, e) <= 255
}

/// Parse an IPv4 address written at `s[i..]` and reaching the end of
/// the string.
pub open spec fn spec_parse_ipv4_at(s: Seq<u8>, i: int) -> Option<u32>
    recommends
        0 <= i <= s.len(),
{
    let e0 = dec_run_end(s, i);
    let i1 = e0 + 1;
    let e1 = dec_run_end(s, i1);
    let i2 = e1 + 1;
    let e2 = dec_run_end(s, i2);
    let i3 = e2 + 1;
    let e3 = dec_run_end(s, i3);
    if octet_ok(s, i, e0) && e0 < s.len() && s[e0] == 46 && octet_ok(s, i1, e1) && e1 < s.len()
        && s[e1] == 46 && octet_ok(s, i2, e2) && e2 < s.len() && s[e2] == 46 && octet_ok(s, i3, e3)
        && e3 == s.len() {
        Some(
            ((dec_value(s, i, e0) * 0x1000000) + (dec_value(s, i1, e1) * 0x10000) + (dec_value(
                s,
                i2,
                e2,
            ) * 0x100) + dec_value(s, i3, e3)) as u32,
        )
    } else {
        None
    }
}

/// The whole string as an IPv4 address.
pub open spec fn spec_parse_ipv4(s: Seq<u8>) -> Option<u32> {
    spec_parse_ipv4_at(s, 0)
}

/// A valid hexadecimal group occupies `s[i..e)`: one to four digits.
pub open spec fn group_ok(s: Seq<u8>, i: int, e: int) -> bool {
    i < e <= s.len() && e - i <= 4
}

/// Hexadecimal groups separated by single colons, from `i` up to
/// exactly `end`; the empty range holds no groups.
pub open spec fn spec_groups(s: Seq<u8>, i: int, end: int) -> Option<Seq<u16>>
    recommends
        0 <= i <= end <= s.len(),
    decreases end - i,
{
    if i == end {
        Some(Seq::empty())
    } else {
        let e = hex_run_end(s, i);
        if !(group_ok(s, i, e) && e <= end) {
            None
        } else {
            let v = hex_value(s, i, e) as u16;
            if e == end {
                Some(seq![v])
            } else if s[e] == 58 && e + 1 < end {
                match spec_groups(s, e + 1, end) {
                    Some(gs) => Some(seq![v] + gs),
                    None => None,
                }
            } else {
                None
            }
        }
    }
}

/// Hexadecimal groups from `i` to the end of the string, where the
/// final groups may instead be an embedded IPv4 address standing for
/// two groups.
pub open spec fn spec_groups_tail(s: Seq<u8>, i: int) -> Option<Seq<u16>>
    recommends
        0 <= i <= s.len(),
    decreases s.len() - i,
{
    if i == s.len() {
        Some(Seq::empty())
    } else {
        let e = hex_run_end(s, i);
        if e < s.len() && s[e] == 46 {
            match spec_parse_ipv4_at(s, i) {
                Some(v) => Some(seq![((v >> 16) & 0xffff) as u16, (v & 0xffff) as u16]),
                None => None,
            }
        } else if !group_ok(s, i, e) {
            None
        } else {
            let v = hex_value(s, i, e) as u16;
            if e == s.len() {
                Some(seq![v])
            } else if s[e] == 58 && e + 1 < s.len() {
                match spec_groups_tail(s, e + 1) {
                    Some(gs) => Some(seq![v] + gs),
                    None => None,
                }
            } else {
                None
            }
        }
    }
}

/// Position of the first `::` at or after `i`.
pub open spec fn find_double_colon(s: Seq<u8>, i: int) -> Option<int>
    recommends
        0 <= i <= s.len(),
    decreases s.len() - i,
{
    if i + 2 > s.len() {
        None
    } else if s[i] == 58 && s[i + 1] == 58 {
        Some(i)
    } else {
        find_double_colon(s, i + 1)
    }
}

/// The address value denoted by a full list of eight groups.
pub open spec fn groups_val(gs: Seq<u16>) -> u128
    decreases gs.len(),
{
    if gs.len() == 0 {
        0u128
    } else {
        ((groups_val(gs.drop_last()) << 16u128) | (gs.last() as u128)) as u128
    }
}

/// The whole string as an IPv6 address.
pub open spec fn spec_parse_ipv6(s: Seq<u8>) -> Option<u128> {
    match find_double_colon(s, 0) {
        None => match spec_groups_tail(s, 0) {
            Some(gs) => if gs.len() == 8 {
                Some(groups_val(gs))
            } else {
                None
            },
            None => None,
        },
        Some(d) => {
            let left = spec_groups(s, 0, d);
            let right = spec_groups_tail(s, d + 2);
            match (left, right) {
                (Some(l), Some(r)) => if l.len() + r.len() <= 7 {
                    Some(groups_val(l + Seq::new((8 - l.len() - r.len()) as nat, |k: int| 0u16) + r))
                } else {
                    None
                },
                _ => None,
            }
        },
    }
}

/// The whole string as an address of either family.
pub open spec fn spec_parse_ip(s: Seq<u8>) -> Option<IpAddress> {
    match spec_parse_ipv4(s) {
        Some(x) => Some(IpAddress::V4(x)),
        None => match spec_parse_ipv6(s) {
            Some(x) => Some(IpAddress::V6(x)),
            None => None,
        },
    }
}

/// Position of the first `/` at or after `i`.
pub open spec fn find_slash(s: Seq<u8>, i: int) -> Option<int>
    recommends
        0 <= i <= s.len(),
    decreases s.len() - i,
{
    if i >= s.len() {
        None
    } else if s[i] == 47 {
        Some(i)
    } else {
        find_slash(s, i + 1)
    }
}

/// A valid prefix length written at `s[i..)`: one to three decimal
/// digits reaching the end, no leading zero, value at most `max`.
pub open spec fn prefix_ok(s: Seq<u8>, i: int, max: int) -> bool {
    let e = dec_run_end(s, i);
    &&& i < e
    &&& e == s.len()
    &&& e - i <= 3
    &&& (s[i] == 48 ==> e == i + 1)
    &&& dec_value(s, i, e) <= max
}

/// A decimal scan from `i` ends exactly at the first non-digit.
pub proof fn lemma_dec_run_stops(s: Seq<u8>, i: int, j: int)
    requires
        0 <= i <= j <= s.len(),
        forall|k: int| i <= k < j ==> is_dec_digit(#[trigger] s[k]),
        j == s.len() || !is_dec_digit(s[j]),
    ensures
        dec_run_end(s, i) == j,
    decreases j - i,
{
    if i < j {
        lemma_dec_run_stops(s, i + 1, j);
    }
}

/// Digits run through a decimal scan.
proof fn lemma_dec_run_digits(s: Seq<u8>, i: int, k: int)
    requires
        0 <= i <= k < dec_run_end(s, i),
        i <= s.len(),
    ensures
        is_dec_digit(s[k]),
    decreases k - i,
{
    if i < k {
        lemma_dec_run_digits(s, i + 1, k)
    }
}

/// A decimal scan never passes the end of the string.
proof fn lemma_dec_run_le_len(s: Seq<u8>, i: int)
    requires
        0 <= i <= s.len(),
    ensures
        i <= dec_run_end(s, i) <= s.len(),
    decreases s.len() - i,
{
    if i < s.len() && is_dec_digit(s[i]) {
        lemma_dec_run_le_len(s, i + 1)
    }
}

proof fn lemma_hex_run_le_len(s: Seq<u8>, i: int)
    requires
        0 <= i <= s.len(),
    ensures
        i <= hex_run_end(s, i) <= s.len(),
    decreases s.len() - i,
{
    if i < s.len() && is_hex_digit(s[i]) {
        lemma_hex_run_le_len(s, i + 1)
    }
}

proof fn lemma_hex_run_digits(s: Seq<u8>, i: int, k: int)
    requires
        0 <= i <= k < hex_run_end(s, i),
        i <= s.len(),
    ensures
        is_hex_digit(s[k]),
    decreases k - i,
{
    if i < k {
        lemma_hex_run_digits(s, i + 1, k)
    }
}

/// The value of a digit run grows by a factor below ten per digit.
proof fn lemma_dec_value_bound(s: Seq<u8>, i: int, j: int, cap: int)
    requires
        0 <= i <= j <= s.len(),
        forall|k: int| i <= k < j ==> is_dec_digit(#[trigger] s[k]),
        j - i <= 3,
    ensures
        0 <= dec_value(s, i, j) < 1000,
        j - i <= 2 ==> dec_value(s, i, j) < 100,
        j - i <= 1 ==> dec_value(s, i, j) < 10,
        cap == cap,
    decreases j - i,
{
    if i < j {
        lemma_dec_value_bound(s, i, j - 1, cap);
    }
}

proof fn lemma_hex_value_bound(s: Seq<u8>, i: int, j: int)
    requires
        0 <= i <= j <= s.len(),
        forall|k: int| i <= k < j ==> is_hex_digit(#[trigger] s[k]),
        j - i <= 4,
    ensures
        0 <= hex_value(s, i, j) < 0x10000,
        j - i <= 3 ==> hex_value(s, i, j) < 0x1000,
        j - i <= 2 ==> hex_value(s, i, j) < 0x100,
        j - i <= 1 ==> hex_value(s, i, j) < 0x10,
    decreases j - i,
{
    if i < j {
        lemma_hex_value_bound(s, i, j - 1);
    }
}

/// End of the decimal digit run starting at `i`.
fn dec_end(s: &[u8], i: usize) -> (e: usize)
    requires
        i <= s@.len(),
    ensures
        e as int == dec_run_end(s@, i as int),
        i <= e <= s@.len(),
{
    let mut j = i;
    while j < s.len() && 48 <= s[j] && s[j] <= 57
        invariant
            i <= j <= s@.len(),
            dec_run_end(s@, i as int) == dec_run_end(s@, j as int),
        decreases s@.len() - j,
    {
        j = j + 1;
    }
    j
}

/// End of the hexadecimal digit run starting at `i`.
fn hex_end(s: &[u8], i: usize) -> (e: usize)
    requires
        i <= s@.len(),
    ensures
        e as int == hex_run_end(s@, i as int),
        i <= e <= s@.len(),
{
    let mut j = i;
    while j < s.len() && (48 <= s[j] && s[j] <= 57 || 97 <= s[j] && s[j] <= 102 || 65 <= s[j]
        && s[j] <= 70)
        invariant
            i <= j <= s@.len(),
            hex_run_end(s@, i as int) == hex_run_end(s@, j as int),
        decreases s@.len() - j,
    {
        j = j + 1;
    }
    j
}

/// Value of the decimal digits `s[i..e)`, at most three of them.
fn dec_val3(s: &[u8], i: usize, e: usize) -> (v: u16)
    requires
        i <= e <= s@.len(),
        e - i <= 3,
        forall|k: int| i <= k < e ==> is_dec_digit(#[trigger] s@[k]),
    ensures
        v as int == dec_value(s@, i as int, e as int),
        v < 1000,
{
    proof {
        lemma_dec_value_bound(s@, i as int, e as int, 0);
    }
    let mut acc: u16 = 0;
    let mut k = i;
    while k < e
        invariant
            i <= k <= e <= s@.len(),
            e - i <= 3,
            forall|j: int| i <= j < e ==> is_dec_digit(#[trigger] s@[j]),
            acc as int == dec_value(s@, i as int, k as int),
            acc < 1000,
        decreases e - k,
    {
        proof {
            lemma_dec_value_bound(s@, i as int, k as int, 0);
        }
        let d = s[k];
        acc = acc * 10 + (d - 48) as u16;
        k = k + 1;
    }
    acc
}

/// Value of the hexadecimal digits `s[i..e)`, at most four of them.
fn hex_val4(s: &[u8], i: usize, e: usize) -> (v: u16)
    requires
        i <= e <= s@.len(),
        e - i <= 4,
        forall|k: int| i <= k < e ==> is_hex_digit(#[trigger] s@[k]),
    ensures
        v as int == hex_value(s@, i as int, e as int),
{
    let mut acc: u16 = 0;
    let mut k = i;
    while k < e
        invariant
            i <= k <= e <= s@.len(),
            e - i <= 4,
            forall|j: int| i <= j < e ==> is_hex_digit(#[trigger] s@[j]),
            acc as int == hex_value(s@, i as int, k as int),
        decreases e - k,
    {
        proof {
            lemma_hex_value_bound(s@, i as int, k as int);
        }
        let d = s[k];
        let dv: u16 = if 48 <= d && d <= 57 {
            (d - 48) as u16
        } else if 97 <= d && d <= 102 {
            (d - 87) as u16
        } else {
            (d - 55) as u16
        };
        acc = acc * 16 + dv;
        k = k + 1;
    }
    acc
}

/// One decimal octet at `i`: its value and where it ends.
fn parse_octet(s: &[u8], i: usize) -> (r: Option<(u8, usize)>)
    requires
        i <= s@.len(),
    ensures
        match r {
            Some((v, e)) => {
                &&& e as int == dec_run_end(s@, i as int)
                &&& octet_ok(s@, i as int, e as int)
                &&& v as int == dec_value(s@, i as int, e as int)
                &&& i < e <= s@.len()
            },
            None => !octet_ok(s@, i as int, dec_run_end(s@, i as int)),
        },
{
    let e = dec_end(s, i);
    if e == i || e - i > 3 {
        return None;
    }
    if s[i] == 48 && e != i + 1 {
        return None;
    }
    proof {
        assert forall|k: int| i <= k < e implies is_dec_digit(#[trigger] s@[k]) by {
            lemma_dec_run_digits(s@, i as int, k);
        }
    }
    let v = dec_val3(s, i, e);
    if v > 255 {
        return None;
    }
    Some((v as u8, e))
}

/// An IPv4 address written at `s[i..]` and reaching the end.
pub fn parse_ipv4_at(s: &[u8], i: usize) -> (r: Option<u32>)
    requires
        i <= s@.len(),
    ensures
        r == spec_parse_ipv4_at(s@, i as int),
{
    let (v0, e0) = match parse_octet(s, i) {
        Some(p) => p,
        None => {
            return None;
        },
    };
    if e0 >= s.len() || s[e0] != 46 {
        return None;
    }
    let (v1, e1) = match parse_octet(s, e0 + 1) {
        Some(p) => p,
        None => {
            return None;
        },
    };
    if e1 >= s.len() || s[e1] != 46 {
        return None;
    }
    let (v2, e2) = match parse_octet(s, e1 + 1) {
        Some(p) => p,
        None => {
            return None;
        },
    };
    if e2 >= s.len() || s[e2] != 46 {
        return None;
    }
    let (v3, e3) = match parse_octet(s, e2 + 1) {
        Some(p) => p,
        None => {
            return None;
        },
    };
    if e3 != s.len() {
        return None;
    }
    Some((v0 as u32) * 0x1000000 + (v1 as u32) * 0x10000 + (v2 as u32) * 0x100 + (v3 as u32))
}

/// The whole string as a network: an address, optionally followed by
/// `/` and a prefix length.  A bare address denotes the full-width
/// network of its family.
pub open spec fn spec_parse_cidr(s: Seq<u8>) -> Option<Cidr> {
    match find_slash(s, 0) {
        None => match spec_parse_ip(s) {
            Some(a) => Some(Cidr { addr: a, prefix: a.spec_total_bits() as u8 }),
            None => None,
        },
        Some(k) => match spec_parse_ip(s.subrange(0, k)) {
            Some(a) => if prefix_ok(s, k + 1, a.spec_total_bits()) {
                Some(Cidr { addr: a, prefix: dec_value(s, k + 1, dec_run_end(s, k + 1)) as u8 })
            } else {
                None
            },
            None => None,
        },
    }
}

/// Hexadecimal groups from `i` up to exactly `end`.
fn parse_groups(s: &[u8], i: usize, end: usize) -> (r: Option<Vec<u16>>)
    requires
        i <= end <= s@.len(),
    ensures
        match r {
            Some(v) => spec_groups(s@, i as int, end as int) == Some(v@),
            None => spec_groups(s@, i as int, end as int) is None,
        },
    decreases s@.len() - i,
{
    if i == end {
        let v: Vec<u16> = Vec::new();
        assert(v@ =~= Seq::<u16>::empty());
        return Some(v);
    }
    let e = hex_end(s, i);
    if !(e > i && e - i <= 4 && e <= end) {
        return None;
    }
    proof {
        assert forall|k: int| i <= k < e implies is_hex_digit(#[trigger] s@[k]) by {
            lemma_hex_run_digits(s@, i as int, k);
        }
    }
    let v = hex_val4(s, i, e);
    if e == end {
        let mut res: Vec<u16> = Vec::new();
        res.push(v);
        assert(res@ =~= seq![v]);
        return Some(res);
    }
    if s[e] == 58 && e + 1 < end {
        match parse_groups(s, e + 1, end) {
            Some(gs) => {
                let mut res = gs;
                res.insert(0, v);
                proof {
                    let sp = spec_groups(s@, (e + 1) as int, end as int);
                    assert(res@ =~= seq![v] + sp->0);
                }
                Some(res)
            },
            None => None,
        }
    } else {
        None
    }
}

/// Hexadecimal groups from `i` to the end of the string, with an
/// optional embedded IPv4 tail.
fn parse_groups_tail(s: &[u8], i: usize) -> (r: Option<Vec<u16>>)
    requires
        i <= s@.len(),
    ensures
        match r {
            Some(v) => spec_groups_tail(s@, i as int) == Some(v@),
            None => spec_groups_tail(s@, i as int) is None,
        },
    decreases s@.len() - i,
{
    if i == s.len() {
        let v: Vec<u16> = Vec::new();
        assert(v@ =~= Seq::<u16>::empty());
        return Some(v);
    }
    let e = hex_end(s, i);
    if e < s.len() && s[e] == 46 {
        return match parse_ipv4_at(s, i) {
            Some(x) => {
                let hi = ((x >> 16u32) & 0xffff) as u16;
                let lo = (x & 0xffff) as u16;
                let mut res: Vec<u16> = Vec::new();
                res.push(hi);
                res.push(lo);
                assert(res@ =~= seq![((x >> 16u32) & 0xffff) as u16, (x & 0xffff) as u16]);
                Some(res)
            },
            None => None,
        };
    }
    if !(e > i && e - i <= 4) {
        return None;
    }
    proof {
        assert forall|k: int| i <= k < e implies is_hex_digit(#[trigger] s@[k]) by {
            lemma_hex_run_digits(s@, i as int, k);
        }
    }
    let v = hex_val4(s, i, e);
    if e == s.len() {
        let mut res: Vec<u16> = Vec::new();
        res.push(v);
        assert(res@ =~= seq![v]);
        return Some(res);
    }
    if s[e] == 58 && e + 1 < s.len() {
        match parse_groups_tail(s, e + 1) {
            Some(gs) => {
                let mut res = gs;
                res.insert(0, v);
                proof {
                    let sp = spec_groups_tail(s@, (e + 1) as int);
                    assert(res@ =~= seq![v] + sp->0);
                }
                Some(res)
            },
            None => None,
        }
    } else {
        None
    }
}

/// First `::` at or after `i`.
fn find_dc(s: &[u8], i: usize) -> (r: Option<usize>)
    requires
        i <= s@.len(),
    ensures
        match r {
            Some(d) => find_double_colon(s@, i as int) == Some(d as int) && i <= d && d + 2
                <= s@.len(),
            None => find_double_colon(s@, i as int) is None,
        },
{
    let n = s.len();
    if n < 2 {
        return None;
    }
    let mut j = i;
    while j <= n - 2
        invariant
            i <= j,
            n == s@.len(),
            2 <= n,
            j <= n,
            find_double_colon(s@, i as int) == find_double_colon(s@, j as int),
        decreases n - j,
    {
        if s[j] == 58 && s[j + 1] == 58 {
            return Some(j);
        }
        j = j + 1;
    }
    None
}

/// The value denoted by a list of groups, most significant first.
fn groups_value(gs: &Vec<u16>) -> (r: u128)
    requires
        gs@.len() <= 8,
    ensures
        r == groups_val(gs@),
{
    let mut acc: u128 = 0;
    let mut k: usize = 0;
    assert(gs@.take(0) =~= Seq::<u16>::empty());
    while k < gs.len()
        invariant
            k <= gs@.len() <= 8,
            acc == groups_val(gs@.take(k as int)),
        decreases gs@.len() - k,
    {
        let g = gs[k];
        proof {
            let t = gs@.take(k as int + 1);
            assert(t.drop_last() =~= gs@.take(k as int));
            assert(t.last() == gs@[k as int]);
        }
        acc = (acc << 16u128) | (g as u128);
        k = k + 1;
    }
    assert(gs@.take(gs@.len() as int) =~= gs@);
    acc
}

/// The whole string as an IPv6 address.
pub fn parse_ipv6(s: &[u8]) -> (r: Option<u128>)
    ensures
        r == spec_parse_ipv6(s@),
{
    let n = s.len();
    match find_dc(s, 0) {
        None => {
            match parse_groups_tail(s, 0) {
                Some(gs) => {
                    if gs.len() == 8 {
                        Some(groups_value(&gs))
                    } else {
                        None
                    }
                },
                None => None,
            }
        },
        Some(d) => {
            let left = match parse_groups(s, 0, d) {
                Some(l) => l,
                None => {
                    return None;
                },
            };
            let right = match parse_groups_tail(s, d + 2) {
                Some(rr) => rr,
                None => {
                    return None;
                },
            };
            if left.len() > 7 || right.len() > 7 || left.len() + right.len() > 7 {
                return None;
            }
            let zeros = 8 - left.len() - right.len();
            let mut gs = left;
            let mut z: usize = 0;
            let ghost l = gs@;
            while z < zeros
                invariant
                    z <= zeros,
                    gs@ =~= l + Seq::new(z as nat, |k: int| 0u16),
                decreases zeros - z,
            {
                gs.push(0u16);
                proof {
                    assert(gs@ =~= l + Seq::new((z + 1) as nat, |k: int| 0u16));
                }
                z = z + 1;
            }
            let mut right_v = right;
            let ghost rv = right_v@;
            gs.append(&mut right_v);
            proof {
                let spl = spec_groups(s@, 0, d as int)->0;
                let spr = spec_groups_tail(s@, (d + 2) as int)->0;
                assert(gs@ =~= spl + Seq::new((8 - spl.len() - spr.len()) as nat, |k: int| 0u16)
                    + spr);
            }
            Some(groups_value(&gs))
        },
    }
}

/// The whole string as an address of either family.
pub fn parse_ip_bytes(s: &[u8]) -> (r: Option<IpAddress>)
    ensures
        r == spec_parse_ip(s@),
{
    match parse_ipv4_at(s, 0) {
        Some(x) => Some(IpAddress::V4(x)),
        None => match parse_ipv6(s) {
            Some(x) => Some(IpAddress::V6(x)),
            None => None,
        },
    }
}

/// First `/` at or after `i`.
fn find_slash_at(s: &[u8], i: usize) -> (r: Option<usize>)
    requires
        i <= s@.len(),
    ensures
        match r {
            Some(k) => find_slash(s@, i as int) == Some(k as int) && i <= k && k < s@.len(),
            None => find_slash(s@, i as int) is None,
        },
{
    let mut j = i;
    while j < s.len()
        invariant
            i <= j <= s@.len(),
            find_slash(s@, i as int) == find_slash(s@, j as int),
        decreases s@.len() - j,
    {
        if s[j] == 47 {
            return Some(j);
        }
        j = j + 1;
    }
    None
}

/// The whole string as a network range.
pub fn parse_cidr_bytes(s: &[u8]) -> (r: Option<Cidr>)
    ensures
        r == spec_parse_cidr(s@),
        r is Some ==> r->0.spec_wf(),
{
    let n = s.len();
    let r = match find_slash_at(s, 0) {
        None => {
            match parse_ip_bytes(s) {
                Some(a) => Some(Cidr { addr: a, prefix: a.max_prefix_len() }),
                None => None,
            }
        },
        Some(k) => {
            let head = vstd::slice::slice_subrange(s, 0, k);
            match parse_ip_bytes(head) {
                Some(a) => {
                    let max = a.max_prefix_len();
                    let e = dec_end(s, k + 1);
                    if e == k + 1 || e != s.len() || e - (k + 1) > 3 {
                        None
                    } else if s[k + 1] == 48 && e != k + 2 {
                        None
                    } else {
                        proof {
                            assert forall|j: int| k + 1 <= j < e implies is_dec_digit(
                                #[trigger] s@[j],
                            ) by {
                                lemma_dec_run_digits(s@, k as int + 1, j);
                            }
                        }
                        let v = dec_val3(s, k + 1, e);
                        if v > max as u16 {
                            None
                        } else {
                            Some(Cidr { addr: a, prefix: v as u8 })
                        }
                    }
                },
                None => None,
            }
        },
    };
    r
}

/// The whole string as an address of either family.
pub fn parse_ip(s: &str) -> (r: Option<IpAddress>)
    ensures
        r == spec_parse_ip(s.spec_bytes()),
{
    parse_ip_bytes(s.as_bytes())
}

/// The whole string as a network range.
pub fn parse_cidr(s: &str) -> (r: Option<Cidr>)
    ensures
        r == spec_parse_cidr(s.spec_bytes()),
        r is Some ==> r->0.spec_wf(),
{
    parse_cidr_bytes(s.as_bytes())
}

} // verus!
