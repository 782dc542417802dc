//! The lookup engine: parse a query, probe the exact table, walk the
//! trie for covering CIDRs, and merge every matched flag set.
//!
//! A result's `matched_entries` holds the exact-address match first,
//! if any, then every covering CIDR in ascending prefix order; its
//! `flags` is the merge of all matched flag sets, and `found` says
//! whether anything matched.  `spec_ip_lookup_ok` states all of that,
//! and the batch functions promise it element by element, which is
//! how a batch equals its per-item lookups.

use vstd::prelude::*;
use vstd::string::StringSliceAdditionalSpecFns;

use crate::addr::{Cidr, IpAddress};
use crate::flags::{spec_empty_flags, spec_merge, ReputationFlags};
use crate::fmt::{ascii_chars_of, cidr_to_string, ip_to_string, spec_fmt_cidr, spec_fmt_ip};
use crate::store::{Database, DbError};
use crate::text::{parse_cidr_bytes, parse_ip_bytes, spec_parse_cidr, spec_parse_ip};

verus! {

/// Batch requests beyond this many entries are rejected outright.
pub const MAX_BATCH_SIZE: usize = 1000;

/// A query failure: unparseable input, an oversized batch, or a
/// store failure.
#[derive(Debug)]
pub enum LookupError {
    InvalidIp(String),
    InvalidCidr(String),
    BatchTooLarge,
    Database(DbError),
}

impl LookupError {
    /// A readable description of the failure.
    pub fn message(&self) -> (r: String)
        ensures
            match self {
                LookupError::InvalidIp(s) => r@ == "Invalid IP address: "@ + s@,
                LookupError::InvalidCidr(s) => r@ == "Invalid CIDR notation: "@ + s@,
                LookupError::BatchTooLarge => r@ == "Batch size exceeds maximum of 1000"@,
                LookupError::Database(_) => true,
            },
    {
        match self {
            LookupError::InvalidIp(s) => {
                let mut m = String::from_str("Invalid IP address: ");
                m.append(s.as_str());
                m
            },
            LookupError::InvalidCidr(s) => {
                let mut m = String::from_str("Invalid CIDR notation: ");
                m.append(s.as_str());
                m
            },
            LookupError::BatchTooLarge => String::from_str("Batch size exceeds maximum of 1000"),
            LookupError::Database(e) => {
                let mut m = String::from_str("Database error: ");
                m.append(e.message().as_str());
                m
            },
        }
    }
}

/// One matched entry: its canonical text and its stored flags.
#[derive(Debug)]
pub struct MatchedEntry {
    pub entry: String,
    pub flags: ReputationFlags,
}

/// The answer to one query.
#[derive(Debug)]
pub struct LookupResult {
    pub found: bool,
    pub query: String,
    pub flags: ReputationFlags,
    pub matched_entries: Vec<MatchedEntry>,
}

/// The merge of every matched entry's flags.
pub open spec fn spec_merge_entries(s: Seq<MatchedEntry>) -> ReputationFlags
    decreases s.len(),
{
    if s.len() == 0 {
        spec_empty_flags()
    } else {
        spec_merge(spec_merge_entries(s.drop_last()), s.last().flags)
    }
}

/// A faithful covering list for `a`: exactly the stored CIDRs of the
/// address's family whose prefix covers it, canonical, in strictly
/// ascending prefix length — which also makes it duplicate-free.
pub open spec fn spec_covering_list(
    db: Database,
    a: IpAddress,
    cov: Seq<(Cidr, ReputationFlags)>,
) -> bool {
    &&& forall|i: int|
        0 <= i < cov.len() ==> {
            let c = (#[trigger] cov[i]).0;
            &&& c.spec_canonical()
            &&& c.addr.spec_is_v4() == a.spec_is_v4()
            &&& db.trie_family(a.spec_is_v4()).contains_pair(
                (c.addr.spec_carrier(), c.prefix),
                cov[i].1,
            )
            &&& c.spec_covers(a)
        }
    &&& forall|k: (u128, u8), f: ReputationFlags|
        #[trigger] db.trie_family(a.spec_is_v4()).contains_pair(k, f) && crate::bits::prefix_eq(
            k.0,
            a.spec_carrier(),
            k.1 as int,
            a.spec_total_bits(),
        ) ==> exists|i: int|
            0 <= i < cov.len() && cov[i] == (crate::trie::spec_cidr_of_key(k, a.spec_is_v4()), f)
    &&& forall|i1: int, i2: int|
        0 <= i1 < i2 < cov.len() ==> (#[trigger] cov[i1]).0.prefix < (#[trigger] cov[i2]).0.prefix
}

/// What a successful single-address lookup returns, given the parsed
/// address `a`: the query echoed, the exact match first if present,
/// then a faithful covering list mirrored one-for-one — so the tail
/// is ordered shortest prefix first with no duplicates — flags merged
/// over all of them, and `found` saying whether anything matched.
pub open spec fn spec_ip_lookup_ok(
    db: Database,
    q: Seq<char>,
    a: IpAddress,
    res: LookupResult,
) -> bool {
    let eo = db.spec_exact_lookup(a);
    let off: int = if eo is Some {
        1
    } else {
        0
    };
    let m = res.matched_entries@;
    &&& res.query@ == q
    &&& res.found == (m.len() > 0)
    &&& res.flags == spec_merge_entries(m)
    &&& m.len() >= off
    &&& (eo matches Some(f0) ==> m[0].flags == f0 && m[0].entry@ == ascii_chars_of(
        spec_fmt_ip(a),
    ))
    &&& forall|j: int|
        off <= j < m.len() ==> exists|c: Cidr|
            {
                &&& db.trie_family(a.spec_is_v4()).contains_pair(
                    (c.addr.spec_carrier(), c.prefix),
                    (#[trigger] m[j]).flags,
                )
                &&& c.spec_covers(a)
                &&& c.addr.spec_is_v4() == a.spec_is_v4()
                &&& m[j].entry@ == ascii_chars_of(spec_fmt_cidr(c))
            }
    &&& forall|k: (u128, u8), f: ReputationFlags|
        #[trigger] db.trie_family(a.spec_is_v4()).contains_pair(k, f) && crate::bits::prefix_eq(
            k.0,
            a.spec_carrier(),
            k.1 as int,
            a.spec_total_bits(),
        ) ==> exists|j: int|
            off <= j < m.len() && (#[trigger] m[j]).flags == f && m[j].entry@ == ascii_chars_of(
                spec_fmt_cidr(crate::trie::spec_cidr_of_key(k, a.spec_is_v4())),
            )
    &&& exists|cov: Seq<(Cidr, ReputationFlags)>|
        {
            &&& #[trigger] spec_covering_list(db, a, cov)
            &&& m.len() == off + cov.len()
            &&& forall|j: int|
                0 <= j < cov.len() ==> (#[trigger] m[off + j]).flags == cov[j].1 && m[off
                    + j].entry@ == ascii_chars_of(spec_fmt_cidr(cov[j].0))
        }
}

/// What a successful single-range lookup returns: the query echoed,
/// at most the one exact CIDR record matched, flags merged.
pub open spec fn spec_range_lookup_ok(
    db: Database,
    q: Seq<char>,
    c: Cidr,
    res: LookupResult,
) -> bool {
    let o = db.spec_cidr_lookup(c);
    let m = res.matched_entries@;
    &&& res.query@ == q
    &&& res.found == (m.len() > 0)
    &&& res.flags == spec_merge_entries(m)
    &&& (o matches Some(f0) ==> m.len() == 1 && m[0].flags == f0 && m[0].entry@ == ascii_chars_of(
        spec_fmt_cidr(c),
    ))
    &&& (o is None ==> m.len() == 0)
}

/// If the tail of the matched list mirrors the covering list, every
/// covering pair of the trie appears in the tail.
proof fn lemma_matches_complete(
    db: Database,
    a: IpAddress,
    covering: Seq<(Cidr, ReputationFlags)>,
    m: Seq<MatchedEntry>,
    off: int,
)
    requires
        0 <= off,
        m.len() == off + covering.len(),
        forall|j: int|
            off <= j < m.len() ==> (#[trigger] m[j]).flags == covering[j - off].1 && m[j].entry@
                == ascii_chars_of(spec_fmt_cidr(covering[j - off].0)),
        forall|k: (u128, u8), f: ReputationFlags|
            #[trigger] db.trie_family(a.spec_is_v4()).contains_pair(k, f)
                && crate::bits::prefix_eq(
                k.0,
                a.spec_carrier(),
                k.1 as int,
                a.spec_total_bits(),
            ) ==> exists|i: int|
                0 <= i < covering.len() && covering[i] == (
                    crate::trie::spec_cidr_of_key(k, a.spec_is_v4()),
                    f,
                ),
    ensures
        forall|k: (u128, u8), f: ReputationFlags|
            #[trigger] db.trie_family(a.spec_is_v4()).contains_pair(k, f)
                && crate::bits::prefix_eq(
                k.0,
                a.spec_carrier(),
                k.1 as int,
                a.spec_total_bits(),
            ) ==> exists|j: int|
                off <= j < m.len() && (#[trigger] m[j]).flags == f && m[j].entry@
                    == ascii_chars_of(
                    spec_fmt_cidr(crate::trie::spec_cidr_of_key(k, a.spec_is_v4())),
                ),
{
    assert forall|k: (u128, u8), f: ReputationFlags|
        #[trigger] db.trie_family(a.spec_is_v4()).contains_pair(k, f) && crate::bits::prefix_eq(
            k.0,
            a.spec_carrier(),
            k.1 as int,
            a.spec_total_bits(),
        ) implies exists|j: int|
        off <= j < m.len() && (#[trigger] m[j]).flags == f && m[j].entry@ == ascii_chars_of(
            spec_fmt_cidr(crate::trie::spec_cidr_of_key(k, a.spec_is_v4())),
        ) by {
        let i0 = choose|i0: int|
            0 <= i0 < covering.len() && covering[i0] == (
                crate::trie::spec_cidr_of_key(k, a.spec_is_v4()),
                f,
            );
        assert(m[off + i0].flags == covering[i0].1);
        assert(m[off + i0].entry@ == ascii_chars_of(spec_fmt_cidr(covering[i0].0)));
        assert(off <= off + i0 < m.len() && m[off + i0].flags == f && m[off + i0].entry@
            == ascii_chars_of(
            spec_fmt_cidr(crate::trie::spec_cidr_of_key(k, a.spec_is_v4())),
        ));
    }
}

/// Look up one address: exact probe plus covering-CIDR walk.
/// Fails with `InvalidIp` exactly on unparseable input.
#[verifier::rlimit(100)]
pub fn lookup_ip(db: &Database, ip_str: &str) -> (r: Result<LookupResult, LookupError>)
    requires
        db.inv(),
    ensures
        r matches Err(e) ==> match e {
            LookupError::InvalidIp(s) => spec_parse_ip(ip_str.spec_bytes()) is None && s@
                == ip_str@,
            LookupError::Database(_) => spec_parse_ip(ip_str.spec_bytes()) is Some,
            _ => false,
        },
        r matches Ok(res) ==> spec_parse_ip(ip_str.spec_bytes()) matches Some(a)
            && spec_ip_lookup_ok(*db, ip_str@, a, res),
{
    let a = match parse_ip_bytes(ip_str.as_bytes()) {
        Some(a) => a,
        None => {
            return Err(LookupError::InvalidIp(ip_str.to_owned()));
        },
    };
    let exact = match db.lookup_ip(&a) {
        Ok(o) => o,
        Err(e) => {
            return Err(LookupError::Database(e));
        },
    };
    let mut matched: Vec<MatchedEntry> = Vec::new();
    let mut merged = ReputationFlags::default();
    match exact {
        Some(f0) => {
            matched.push(MatchedEntry { entry: ip_to_string(&a), flags: f0 });
            merged = merged.merge(&f0);
            proof {
                assert(matched@.drop_last() =~= Seq::<MatchedEntry>::empty());
                crate::flags::lemma_merge_identity(f0);
                assert(matched@.len() == 1);
                assert(matched@.last().flags == f0);
                assert(spec_merge_entries(matched@.drop_last()) == spec_empty_flags());
                assert(merged == spec_merge_entries(matched@));
            }
        },
        None => {},
    }
    let ghost off: int = matched@.len() as int;
    let covering = db.find_matching_cidrs_fast(&a);
    let mut i: usize = 0;
    while i < covering.len()
        invariant
            db.inv(),
            i <= covering@.len(),
            matched@.len() == off + i,
            merged == spec_merge_entries(matched@),
            off == if db.spec_exact_lookup(a) is Some {
                1int
            } else {
                0
            },
            db.spec_exact_lookup(a) matches Some(f0) ==> matched@[0].flags == f0
                && matched@[0].entry@ == ascii_chars_of(spec_fmt_ip(a)),
            forall|j: int|
                off <= j < matched@.len() ==> (#[trigger] matched@[j]).flags == covering@[j
                    - off].1 && matched@[j].entry@ == ascii_chars_of(
                    spec_fmt_cidr(covering@[j - off].0),
                ),
            forall|j: int|
                0 <= j < covering@.len() ==> {
                    let c = (#[trigger] covering@[j]).0;
                    &&& c.spec_canonical()
                    &&& c.addr.spec_is_v4() == a.spec_is_v4()
                    &&& db.trie_family(a.spec_is_v4()).contains_pair(
                        (c.addr.spec_carrier(), c.prefix),
                        covering@[j].1,
                    )
                    &&& c.spec_covers(a)
                },
        decreases covering@.len() - i,
    {
        let c = covering[i].0;
        let f = covering[i].1;
        let ghost m0 = matched@;
        matched.push(MatchedEntry { entry: cidr_to_string(&c), flags: f });
        merged = merged.merge(&f);
        proof {
            assert(matched@.drop_last() =~= m0);
            assert(merged == spec_merge_entries(matched@));
        }
        i = i + 1;
    }
    let found = matched.len() > 0;
    let res = LookupResult { found, query: ip_str.to_owned(), flags: merged, matched_entries: matched };
    proof {
        let m = res.matched_entries@;
        lemma_matches_complete(*db, a, covering@, m, off);
        assert(spec_covering_list(*db, a, covering@));
        assert(m.len() == off + covering@.len());
        assert forall|j: int|
            0 <= j < covering@.len() implies (#[trigger] m[off + j]).flags == covering@[j].1 && m[off
            + j].entry@ == ascii_chars_of(spec_fmt_cidr(covering@[j].0)) by {
            assert(m[off + j] == matched@[off + j]);
        }
        assert forall|j: int|
            off <= j < m.len() implies exists|c: Cidr|
            {
                &&& db.trie_family(a.spec_is_v4()).contains_pair(
                    (c.addr.spec_carrier(), c.prefix),
                    (#[trigger] m[j]).flags,
                )
                &&& c.spec_covers(a)
                &&& c.addr.spec_is_v4() == a.spec_is_v4()
                &&& m[j].entry@ == ascii_chars_of(spec_fmt_cidr(c))
            } by {
            let c = covering@[j - off].0;
            assert(db.trie_family(a.spec_is_v4()).contains_pair(
                (c.addr.spec_carrier(), c.prefix),
                m[j].flags,
            ));
        }
    }
    Ok(res)
}

/// Look up one range: an exact CIDR probe only, under the canonical
/// form of the queried network.  Fails with `InvalidCidr` exactly on
/// unparseable input.
#[verifier::rlimit(100)]
pub fn lookup_range(db: &Database, cidr_str: &str) -> (r: Result<LookupResult, LookupError>)
    requires
        db.inv(),
    ensures
        r matches Err(e) ==> match e {
            LookupError::InvalidCidr(s) => spec_parse_cidr(cidr_str.spec_bytes()) is None && s@
                == cidr_str@,
            LookupError::Database(_) => spec_parse_cidr(cidr_str.spec_bytes()) is Some,
            _ => false,
        },
        r matches Ok(res) ==> spec_parse_cidr(cidr_str.spec_bytes()) matches Some(c)
            && spec_range_lookup_ok(*db, cidr_str@, c, res),
{
    let c = match parse_cidr_bytes(cidr_str.as_bytes()) {
        Some(c) => c,
        None => {
            return Err(LookupError::InvalidCidr(cidr_str.to_owned()));
        },
    };
    let o = match db.lookup_cidr(&c) {
        Ok(o) => o,
        Err(e) => {
            return Err(LookupError::Database(e));
        },
    };
    let mut matched: Vec<MatchedEntry> = Vec::new();
    let mut merged = ReputationFlags::default();
    match o {
        Some(f0) => {
            matched.push(MatchedEntry { entry: cidr_to_string(&c), flags: f0 });
            merged = merged.merge(&f0);
            proof {
                assert(matched@.drop_last() =~= Seq::<MatchedEntry>::empty());
                crate::flags::lemma_merge_identity(f0);
                assert(matched@.len() == 1);
                assert(matched@.last().flags == f0);
                assert(spec_merge_entries(matched@.drop_last()) == spec_empty_flags());
                assert(merged == spec_merge_entries(matched@));
            }
        },
        None => {},
    }
    let found = matched.len() > 0;
    Ok(
        LookupResult {
            found,
            query: cidr_str.to_owned(),
            flags: merged,
            matched_entries: matched,
        },
    )
}

/// Look up many addresses.  The batch is all-or-nothing at parse
/// time, and each answer is exactly what the single lookup promises
/// for the same input: answers come in the callers' order.
pub fn lookup_ips_batch(db: &Database, ip_strs: &Vec<String>) -> (r: Result<
    Vec<LookupResult>,
    LookupError,
>)
    requires
        db.inv(),
    ensures
        r matches Err(e) ==> match e {
            LookupError::InvalidIp(s) => exists|i: int|
                0 <= i < ip_strs@.len() && spec_parse_ip(
                    vstd::utf8::encode_utf8((#[trigger] ip_strs@[i])@),
                ) is None && s@ == ip_strs@[i]@,
            LookupError::Database(_) => forall|i: int|
                0 <= i < ip_strs@.len() ==> spec_parse_ip(
                    vstd::utf8::encode_utf8((#[trigger] ip_strs@[i])@),
                ) is Some,
            _ => false,
        },
        r matches Ok(v) ==> v@.len() == ip_strs@.len() && forall|i: int|
            0 <= i < v@.len() ==> (spec_parse_ip(vstd::utf8::encode_utf8((#[trigger] ip_strs@[i])@))
                matches Some(a) && spec_ip_lookup_ok(*db, ip_strs@[i]@, a, v@[i])),
{
    let mut addrs: Vec<IpAddress> = Vec::new();
    let mut i: usize = 0;
    while i < ip_strs.len()
        invariant
            i <= ip_strs@.len(),
            addrs@.len() == i,
            forall|j: int|
                0 <= j < i ==> spec_parse_ip(vstd::utf8::encode_utf8((#[trigger] ip_strs@[j])@)) == Some(
                    addrs@[j],
                ),
        decreases ip_strs@.len() - i,
    {
        match parse_ip_bytes(ip_strs[i].as_str().as_bytes()) {
            Some(a) => {
                addrs.push(a);
            },
            None => {
                return Err(LookupError::InvalidIp(ip_strs[i].clone()));
            },
        }
        i = i + 1;
    }
    let mut out: Vec<LookupResult> = Vec::new();
    let mut i: usize = 0;
    while i < ip_strs.len()
        invariant
            db.inv(),
            i <= ip_strs@.len(),
            addrs@.len() == ip_strs@.len(),
            out@.len() == i,
            forall|j: int|
                0 <= j < ip_strs@.len() ==> spec_parse_ip(vstd::utf8::encode_utf8((#[trigger] ip_strs@[j])@))
                    == Some(addrs@[j]),
            forall|j: int|
                0 <= j < i ==> (spec_parse_ip(vstd::utf8::encode_utf8((#[trigger] ip_strs@[j])@))
                    matches Some(a) && spec_ip_lookup_ok(*db, ip_strs@[j]@, a, out@[j])),
        decreases ip_strs@.len() - i,
    {
        let res = match lookup_ip(db, ip_strs[i].as_str()) {
            Ok(res) => res,
            Err(e) => {
                match e {
                    LookupError::Database(d) => {
                        return Err(LookupError::Database(d));
                    },
                    other => {
                        proof {
                            assert(false);
                        }
                        return Err(other);
                    },
                }
            },
        };
        out.push(res);
        i = i + 1;
    }
    Ok(out)
}

/// Look up many ranges, all-or-nothing at parse time.
pub fn lookup_ranges_batch(db: &Database, cidr_strs: &Vec<String>) -> (r: Result<
    Vec<LookupResult>,
    LookupError,
>)
    requires
        db.inv(),
    ensures
        r matches Err(e) ==> match e {
            LookupError::InvalidCidr(s) => exists|i: int|
                0 <= i < cidr_strs@.len() && spec_parse_cidr(
                    vstd::utf8::encode_utf8((#[trigger] cidr_strs@[i])@),
                ) is None && s@ == cidr_strs@[i]@,
            LookupError::Database(_) => forall|i: int|
                0 <= i < cidr_strs@.len() ==> spec_parse_cidr(
                    vstd::utf8::encode_utf8((#[trigger] cidr_strs@[i])@),
                ) is Some,
            _ => false,
        },
        r matches Ok(v) ==> v@.len() == cidr_strs@.len() && forall|i: int|
            0 <= i < v@.len() ==> (spec_parse_cidr(
                vstd::utf8::encode_utf8((#[trigger] cidr_strs@[i])@),
            ) matches Some(c) && spec_range_lookup_ok(*db, cidr_strs@[i]@, c, v@[i])),
{
    let mut i: usize = 0;
    while i < cidr_strs.len()
        invariant
            i <= cidr_strs@.len(),
            forall|j: int|
                0 <= j < i ==> spec_parse_cidr(vstd::utf8::encode_utf8((#[trigger] cidr_strs@[j])@)) is Some,
        decreases cidr_strs@.len() - i,
    {
        match parse_cidr_bytes(cidr_strs[i].as_str().as_bytes()) {
            Some(_) => {},
            None => {
                return Err(LookupError::InvalidCidr(cidr_strs[i].clone()));
            },
        }
        i = i + 1;
    }
    let mut out: Vec<LookupResult> = Vec::new();
    let mut i: usize = 0;
    while i < cidr_strs.len()
        invariant
            db.inv(),
            i <= cidr_strs@.len(),
            out@.len() == i,
            forall|j: int|
                0 <= j < cidr_strs@.len() ==> spec_parse_cidr(
                    vstd::utf8::encode_utf8((#[trigger] cidr_strs@[j])@),
                ) is Some,
            forall|j: int|
                0 <= j < i ==> (spec_parse_cidr(vstd::utf8::encode_utf8((#[trigger] cidr_strs@[j])@))
                    matches Some(c) && spec_range_lookup_ok(*db, cidr_strs@[j]@, c, out@[j])),
        decreases cidr_strs@.len() - i,
    {
        let res = match lookup_range(db, cidr_strs[i].as_str()) {
            Ok(res) => res,
            Err(e) => {
                match e {
                    LookupError::Database(d) => {
                        return Err(LookupError::Database(d));
                    },
                    other => {
                        proof {
                            assert(false);
                        }
                        return Err(other);
                    },
                }
            },
        };
        out.push(res);
        i = i + 1;
    }
    Ok(out)
}

/// The capped batch entry point for addresses: a batch of more than
/// `MAX_BATCH_SIZE` entries is rejected without touching the store.
pub fn batch_lookup_ip(db: &Database, ip_strs: &Vec<String>) -> (r: Result<
    Vec<LookupResult>,
    LookupError,
>)
    requires
        db.inv(),
    ensures
        ip_strs@.len() > MAX_BATCH_SIZE ==> (r matches Err(e) && e is BatchTooLarge),
        r matches Err(e) ==> match e {
            LookupError::BatchTooLarge => ip_strs@.len() > MAX_BATCH_SIZE,
            LookupError::InvalidIp(s) => exists|i: int|
                0 <= i < ip_strs@.len() && spec_parse_ip(
                    vstd::utf8::encode_utf8((#[trigger] ip_strs@[i])@),
                ) is None && s@ == ip_strs@[i]@,
            LookupError::Database(_) => forall|i: int|
                0 <= i < ip_strs@.len() ==> spec_parse_ip(
                    vstd::utf8::encode_utf8((#[trigger] ip_strs@[i])@),
                ) is Some,
            _ => false,
        },
        r matches Ok(v) ==> ip_strs@.len() <= MAX_BATCH_SIZE && v@.len() == ip_strs@.len()
            && forall|i: int|
            0 <= i < v@.len() ==> (spec_parse_ip(vstd::utf8::encode_utf8((#[trigger] ip_strs@[i])@))
                matches Some(a) && spec_ip_lookup_ok(*db, ip_strs@[i]@, a, v@[i])),
{
    if ip_strs.len() > MAX_BATCH_SIZE {
        return Err(LookupError::BatchTooLarge);
    }
    lookup_ips_batch(db, ip_strs)
}

/// The capped batch entry point for ranges.
pub fn batch_lookup_range(db: &Database, cidr_strs: &Vec<String>) -> (r: Result<
    Vec<LookupResult>,
    LookupError,
>)
    requires
        db.inv(),
    ensures
        cidr_strs@.len() > MAX_BATCH_SIZE ==> (r matches Err(e) && e is BatchTooLarge),
        r matches Err(e) ==> match e {
            LookupError::BatchTooLarge => cidr_strs@.len() > MAX_BATCH_SIZE,
            LookupError::InvalidCidr(s) => exists|i: int|
                0 <= i < cidr_strs@.len() && spec_parse_cidr(
                    vstd::utf8::encode_utf8((#[trigger] cidr_strs@[i])@),
                ) is None && s@ == cidr_strs@[i]@,
            LookupError::Database(_) => forall|i: int|
                0 <= i < cidr_strs@.len() ==> spec_parse_cidr(
                    vstd::utf8::encode_utf8((#[trigger] cidr_strs@[i])@),
                ) is Some,
            _ => false,
        },
        r matches Ok(v) ==> cidr_strs@.len() <= MAX_BATCH_SIZE && v@.len() == cidr_strs@.len()
            && forall|i: int|
            0 <= i < v@.len() ==> (spec_parse_cidr(
                vstd::utf8::encode_utf8((#[trigger] cidr_strs@[i])@),
            ) matches Some(c) && spec_range_lookup_ok(*db, cidr_strs@[i]@, c, v@[i])),
{
    if cidr_strs.len() > MAX_BATCH_SIZE {
        return Err(LookupError::BatchTooLarge);
    }
    lookup_ranges_batch(db, cidr_strs)
}

} // verus!
