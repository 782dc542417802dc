//! The keyed store: a durable mapping from entries — exact IPs and
//! CIDRs, both families kept apart — to flag sets, plus the singleton
//! metadata record, together with the in-memory prefix trie built from
//! the CIDR partitions.
//!
//! The store's view is the map `entries()` from entry keys to flags,
//! the decoded metadata record, and the trie's two family maps.  The
//! trie may lag the entry tables between an import's commit and its
//! trie swap; `rebuild_trie` and the importers restore agreement.

use vstd::prelude::*;
use vstd::string::StringSliceAdditionalSpecFns;

use crate::addr::{Cidr, IpAddress};
use crate::backend::{all_tables_unchanged, cidr_v4_table, cidr_v6_table, ip_v4_table, ip_v6_table,
    meta_table, tables_unchanged_but_meta, StoreBackend};
use crate::bits::{fits, is_prefix_bits};
use crate::flags::{spec_decode_flags, spec_encode_flags, spec_flags_decodable, ReputationFlags};
use crate::keys::{cidr4_key, cidr4_of_key, cidr6_key, cidr6_of_key, ip4_key, ip6_key,
    spec_cidr4_key, spec_cidr6_key, spec_ip4_key, spec_ip6_key};
use crate::meta::{decode_metadata, encode_metadata, spec_encode_metadata, Metadata};
use crate::text::{parse_cidr_bytes, spec_parse_cidr};
use crate::trie::IpTrie;

verus! {

/// A store failure: the backend refused an operation, or the
/// filesystem did.
#[derive(Debug, Clone)]
pub enum DbError {
    Backend(String),
    Io(String),
}

impl DbError {
    /// A readable description of the failure.
    pub fn message(&self) -> (r: String)
        ensures
            match self {
                DbError::Backend(m) => r@ == "store backend error: "@ + m@,
                DbError::Io(m) => r@ == "io error: "@ + m@,
            },
    {
        match self {
            DbError::Backend(m) => {
                let mut s = String::from_str("store backend error: ");
                s.append(m.as_str());
                s
            },
            DbError::Io(m) => {
                let mut s = String::from_str("io error: ");
                s.append(m.as_str());
                s
            },
        }
    }
}

/// The key a parsed entry is stored under: which partition, and the
/// canonical key value within it.
#[derive(Debug, Clone, Copy, PartialEq, Eq, Structural)]
pub enum EntryKey {
    IpV4(u32),
    IpV6(u128),
    CidrV4(u128, u8),
    CidrV6(u128, u8),
}

/// Where an entry string is stored: a full-width or bare address goes
/// to its family's exact table, a shorter network to the CIDR table
/// with its host bits cleared.  Unparseable strings go nowhere.
pub open spec fn spec_entry_key(s: Seq<u8>) -> Option<EntryKey> {
    match spec_parse_cidr(s) {
        Some(c) => {
            if c.prefix as int == c.addr.spec_total_bits() {
                match c.addr {
                    IpAddress::V4(x) => Some(EntryKey::IpV4(x)),
                    IpAddress::V6(x) => Some(EntryKey::IpV6(x)),
                }
            } else {
                let n = c.spec_network();
                match n.addr {
                    IpAddress::V4(_) => Some(EntryKey::CidrV4(n.addr.spec_carrier(), n.prefix)),
                    IpAddress::V6(_) => Some(EntryKey::CidrV6(n.addr.spec_carrier(), n.prefix)),
                }
            }
        },
        None => None,
    }
}

/// The durable store and its trie.
pub struct Database {
    backend: StoreBackend,
    trie: IpTrie,
}

impl Database {
    /// The structural invariant: the trie is well formed.
    pub closed spec fn inv(self) -> bool {
        self.trie.wf()
    }

    /// Exact IPv4 entries, decoded.
    pub closed spec fn exact_v4(self) -> Map<u32, ReputationFlags> {
        Map::new(
            |a: u32|
                ip_v4_table(self.backend).contains_key(spec_ip4_key(a)) && spec_flags_decodable(
                    ip_v4_table(self.backend)[spec_ip4_key(a)],
                ),
            |a: u32| spec_decode_flags(ip_v4_table(self.backend)[spec_ip4_key(a)]),
        )
    }

    /// Exact IPv6 entries, decoded.
    pub closed spec fn exact_v6(self) -> Map<u128, ReputationFlags> {
        Map::new(
            |a: u128|
                ip_v6_table(self.backend).contains_key(spec_ip6_key(a)) && spec_flags_decodable(
                    ip_v6_table(self.backend)[spec_ip6_key(a)],
                ),
            |a: u128| spec_decode_flags(ip_v6_table(self.backend)[spec_ip6_key(a)]),
        )
    }

    /// Stored IPv4 CIDRs with canonical keys, decoded.
    pub closed spec fn cidrs_v4(self) -> Map<(u128, u8), ReputationFlags> {
        Map::new(
            |k: (u128, u8)|
                fits(k.0, 32) && k.1 <= 32 && is_prefix_bits(k.0, k.1 as int, 32) && cidr_v4_table(
                    self.backend,
                ).contains_key(spec_cidr4_key(k.0, k.1)) && spec_flags_decodable(
                    cidr_v4_table(self.backend)[spec_cidr4_key(k.0, k.1)],
                ),
            |k: (u128, u8)| spec_decode_flags(cidr_v4_table(self.backend)[spec_cidr4_key(k.0, k.1)]),
        )
    }

    /// Stored IPv6 CIDRs with canonical keys, decoded.
    pub closed spec fn cidrs_v6(self) -> Map<(u128, u8), ReputationFlags> {
        Map::new(
            |k: (u128, u8)|
                k.1 <= 128 && is_prefix_bits(k.0, k.1 as int, 128) && cidr_v6_table(
                    self.backend,
                ).contains_key(spec_cidr6_key(k.0, k.1)) && spec_flags_decodable(
                    cidr_v6_table(self.backend)[spec_cidr6_key(k.0, k.1)],
                ),
            |k: (u128, u8)| spec_decode_flags(cidr_v6_table(self.backend)[spec_cidr6_key(k.0, k.1)]),
        )
    }

    /// All stored entries under their entry keys.
    pub open spec fn entries(self) -> Map<EntryKey, ReputationFlags> {
        Map::new(
            |k: EntryKey|
                match k {
                    EntryKey::IpV4(a) => self.exact_v4().contains_key(a),
                    EntryKey::IpV6(a) => self.exact_v6().contains_key(a),
                    EntryKey::CidrV4(b, p) => self.cidrs_v4().contains_key((b, p)),
                    EntryKey::CidrV6(b, p) => self.cidrs_v6().contains_key((b, p)),
                },
            |k: EntryKey|
                match k {
                    EntryKey::IpV4(a) => self.exact_v4()[a],
                    EntryKey::IpV6(a) => self.exact_v6()[a],
                    EntryKey::CidrV4(b, p) => self.cidrs_v4()[(b, p)],
                    EntryKey::CidrV6(b, p) => self.cidrs_v6()[(b, p)],
                },
        )
    }

    /// A row is stored under this entry key's byte encoding, whether
    /// or not its value decodes.
    pub closed spec fn raw_has(self, k: EntryKey) -> bool {
        match k {
            EntryKey::IpV4(a) => ip_v4_table(self.backend).contains_key(spec_ip4_key(a)),
            EntryKey::IpV6(a) => ip_v6_table(self.backend).contains_key(spec_ip6_key(a)),
            EntryKey::CidrV4(b, p) => cidr_v4_table(self.backend).contains_key(
                spec_cidr4_key(b, p),
            ),
            EntryKey::CidrV6(b, p) => cidr_v6_table(self.backend).contains_key(
                spec_cidr6_key(b, p),
            ),
        }
    }

    /// No row stands in any of the four entry partitions.
    pub closed spec fn spec_store_is_empty(self) -> bool {
        &&& ip_v4_table(self.backend).dom() == (Set::<Seq<u8>>::empty())
        &&& ip_v6_table(self.backend).dom() == (Set::<Seq<u8>>::empty())
        &&& cidr_v4_table(self.backend).dom() == (Set::<Seq<u8>>::empty())
        &&& cidr_v6_table(self.backend).dom() == (Set::<Seq<u8>>::empty())
    }

    /// The raw metadata record bytes, if one was written.
    pub closed spec fn meta_raw(self) -> Option<Seq<u8>> {
        if meta_table(self.backend).contains_key(spec_meta_key()) {
            Some(meta_table(self.backend)[spec_meta_key()])
        } else {
            None
        }
    }

    /// The trie's stored IPv4 CIDRs.
    pub closed spec fn trie_v4(self) -> Map<(u128, u8), ReputationFlags> {
        self.trie.v4_map()
    }

    /// The trie's stored IPv6 CIDRs.
    pub closed spec fn trie_v6(self) -> Map<(u128, u8), ReputationFlags> {
        self.trie.v6_map()
    }

    /// The trie's CIDRs for one family.
    pub open spec fn trie_family(self, v4: bool) -> Map<(u128, u8), ReputationFlags> {
        if v4 {
            self.trie_v4()
        } else {
            self.trie_v6()
        }
    }

    /// The live trie agrees with the CIDR partitions.
    pub open spec fn trie_in_sync(self) -> bool {
        self.trie_v4() == self.cidrs_v4() && self.trie_v6() == self.cidrs_v6()
    }

    /// Everything except the trie is unchanged.
    pub open spec fn same_store(d1: Database, d2: Database) -> bool {
        &&& d1.exact_v4() == d2.exact_v4()
        &&& d1.exact_v6() == d2.exact_v6()
        &&& d1.cidrs_v4() == d2.cidrs_v4()
        &&& d1.cidrs_v6() == d2.cidrs_v6()
        &&& d1.meta_raw() == d2.meta_raw()
    }

    /// The trie is unchanged.
    pub open spec fn same_trie(d1: Database, d2: Database) -> bool {
        d1.trie_v4() == d2.trie_v4() && d1.trie_v6() == d2.trie_v6()
    }
}

/// The key of the singleton metadata record, the bytes of `meta`.
pub open spec fn spec_meta_key() -> Seq<u8> {
    seq![109u8, 101u8, 116u8, 97u8]
}

/// Build the metadata record's key.
fn meta_key() -> (r: Vec<u8>)
    ensures
        r@ == spec_meta_key(),
{
    let mut r: Vec<u8> = Vec::new();
    r.push(109);
    r.push(101);
    r.push(116);
    r.push(97);
    assert(r@ =~= spec_meta_key());
    r
}


/// Distinct canonical IPv4 CIDR keys have distinct bytes.
proof fn lemma_cidr4_key_injective(b1: u128, p1: u8, b2: u128, p2: u8)
    requires
        spec_cidr4_key(b1, p1) == spec_cidr4_key(b2, p2),
        fits(b1, 32),
        fits(b2, 32),
    ensures
        b1 == b2 && p1 == p2,
{
    let s1 = spec_cidr4_key(b1, p1);
    let s2 = spec_cidr4_key(b2, p2);
    assert(s1[4] == p1 && s2[4] == p2);
    assert(spec_ip4_key(b1 as u32) =~= s1.subrange(0, 4));
    assert(spec_ip4_key(b2 as u32) =~= s2.subrange(0, 4));
    assert(s1.subrange(0, 4) == s2.subrange(0, 4));
    crate::keys::lemma_ip4_key_injective(b1 as u32, b2 as u32);
    assert(b1 >> 32u128 == 0 ==> (b1 as u32) as u128 == b1) by (bit_vector);
    assert(b2 >> 32u128 == 0 ==> (b2 as u32) as u128 == b2) by (bit_vector);
}

/// Distinct IPv6 CIDR keys have distinct bytes.
proof fn lemma_cidr6_key_injective(b1: u128, p1: u8, b2: u128, p2: u8)
    requires
        spec_cidr6_key(b1, p1) == spec_cidr6_key(b2, p2),
    ensures
        b1 == b2 && p1 == p2,
{
    let s1 = spec_cidr6_key(b1, p1);
    let s2 = spec_cidr6_key(b2, p2);
    assert(s1[16] == p1 && s2[16] == p2);
    assert(spec_ip6_key(b1) =~= s1.subrange(0, 16));
    assert(spec_ip6_key(b2) =~= s2.subrange(0, 16));
    assert(s1.subrange(0, 16) == s2.subrange(0, 16));
    crate::keys::lemma_ip6_key_injective(b1, b2);
}

/// Two maps with the same pairs are equal.
proof fn map_ext_pairs<K, V>(m1: Map<K, V>, m2: Map<K, V>)
    requires
        forall|k: K, v: V| #[trigger] m1.contains_pair(k, v) ==> m2.contains_pair(k, v),
        forall|k: K, v: V| #[trigger] m2.contains_pair(k, v) ==> m1.contains_pair(k, v),
    ensures
        m1 == m2,
{
    assert forall|k: K| #[trigger] m1.dom().contains(k) implies m2.dom().contains(k) && m1[k]
        == m2[k] by {
        assert(m1.contains_pair(k, m1[k]));
        assert(m2.contains_pair(k, m1[k]));
    }
    assert forall|k: K| #[trigger] m2.dom().contains(k) implies m1.dom().contains(k) by {
        assert(m2.contains_pair(k, m2[k]));
        assert(m1.contains_pair(k, m2[k]));
    }
    assert(m1.dom() =~= m2.dom());
    assert(m1 =~= m2);
}

/// Writing one encoded pair into the `ip_v4` partition inserts
/// exactly one entry into the store's view.
proof fn lemma_put_ip4(d1: Database, d2: Database, a: u32, f: ReputationFlags)
    requires
        ip_v4_table(d2.backend) == ip_v4_table(d1.backend).insert(spec_ip4_key(a), spec_encode_flags(f)),
        ip_v6_table(d2.backend) == ip_v6_table(d1.backend),
        cidr_v4_table(d2.backend) == cidr_v4_table(d1.backend),
        cidr_v6_table(d2.backend) == cidr_v6_table(d1.backend),
    ensures
        d2.entries() == d1.entries().insert(EntryKey::IpV4(a), f),
{
    crate::flags::lemma_flags_roundtrip(f);
    let target = d1.entries().insert(EntryKey::IpV4(a), f);
    assert forall|k: EntryKey, v: ReputationFlags| #[trigger] d2.entries().contains_pair(k, v)
        implies target.contains_pair(k, v) by {
        match k {
            EntryKey::IpV4(a2) => {
                if spec_ip4_key(a2) == spec_ip4_key(a) {
                    crate::keys::lemma_ip4_key_injective(a2, a);
                }
            },
            _ => {},
        }
    }
    assert forall|k: EntryKey, v: ReputationFlags| #[trigger] target.contains_pair(k, v)
        implies d2.entries().contains_pair(k, v) by {
        match k {
            EntryKey::IpV4(a2) => {
                if spec_ip4_key(a2) == spec_ip4_key(a) {
                    crate::keys::lemma_ip4_key_injective(a2, a);
                }
            },
            _ => {},
        }
    }
    map_ext_pairs(d2.entries(), target);
}

/// Removing one key from the `ip_v4` partition removes exactly
/// one entry from the store's view.
proof fn lemma_del_ip4(d1: Database, d2: Database, a: u32)
    requires
        ip_v4_table(d2.backend) == ip_v4_table(d1.backend).remove(spec_ip4_key(a)),
        ip_v6_table(d2.backend) == ip_v6_table(d1.backend),
        cidr_v4_table(d2.backend) == cidr_v4_table(d1.backend),
        cidr_v6_table(d2.backend) == cidr_v6_table(d1.backend),
    ensures
        d2.entries() == d1.entries().remove(EntryKey::IpV4(a)),
{
    let target = d1.entries().remove(EntryKey::IpV4(a));
    assert forall|k: EntryKey, v: ReputationFlags| #[trigger] d2.entries().contains_pair(k, v)
        implies target.contains_pair(k, v) by {
        match k {
            EntryKey::IpV4(a2) => {
                if spec_ip4_key(a2) == spec_ip4_key(a) {
                    crate::keys::lemma_ip4_key_injective(a2, a);
                }
            },
            _ => {},
        }
    }
    assert forall|k: EntryKey, v: ReputationFlags| #[trigger] target.contains_pair(k, v)
        implies d2.entries().contains_pair(k, v) by {
        match k {
            EntryKey::IpV4(a2) => {
                if spec_ip4_key(a2) == spec_ip4_key(a) {
                    crate::keys::lemma_ip4_key_injective(a2, a);
                }
            },
            _ => {},
        }
    }
    map_ext_pairs(d2.entries(), target);
}

/// Writing one encoded pair into the `ip_v6` partition inserts
/// exactly one entry into the store's view.
proof fn lemma_put_ip6(d1: Database, d2: Database, a: u128, f: ReputationFlags)
    requires
        ip_v6_table(d2.backend) == ip_v6_table(d1.backend).insert(spec_ip6_key(a), spec_encode_flags(f)),
        ip_v4_table(d2.backend) == ip_v4_table(d1.backend),
        cidr_v4_table(d2.backend) == cidr_v4_table(d1.backend),
        cidr_v6_table(d2.backend) == cidr_v6_table(d1.backend),
    ensures
        d2.entries() == d1.entries().insert(EntryKey::IpV6(a), f),
{
    crate::flags::lemma_flags_roundtrip(f);
    let target = d1.entries().insert(EntryKey::IpV6(a), f);
    assert forall|k: EntryKey, v: ReputationFlags| #[trigger] d2.entries().contains_pair(k, v)
        implies target.contains_pair(k, v) by {
        match k {
            EntryKey::IpV6(a2) => {
                if spec_ip6_key(a2) == spec_ip6_key(a) {
                    crate::keys::lemma_ip6_key_injective(a2, a);
                }
            },
            _ => {},
        }
    }
    assert forall|k: EntryKey, v: ReputationFlags| #[trigger] target.contains_pair(k, v)
        implies d2.entries().contains_pair(k, v) by {
        match k {
            EntryKey::IpV6(a2) => {
                if spec_ip6_key(a2) == spec_ip6_key(a) {
                    crate::keys::lemma_ip6_key_injective(a2, a);
                }
            },
            _ => {},
        }
    }
    map_ext_pairs(d2.entries(), target);
}

/// Removing one key from the `ip_v6` partition removes exactly
/// one entry from the store's view.
proof fn lemma_del_ip6(d1: Database, d2: Database, a: u128)
    requires
        ip_v6_table(d2.backend) == ip_v6_table(d1.backend).remove(spec_ip6_key(a)),
        ip_v4_table(d2.backend) == ip_v4_table(d1.backend),
        cidr_v4_table(d2.backend) == cidr_v4_table(d1.backend),
        cidr_v6_table(d2.backend) == cidr_v6_table(d1.backend),
    ensures
        d2.entries() == d1.entries().remove(EntryKey::IpV6(a)),
{
    let target = d1.entries().remove(EntryKey::IpV6(a));
    assert forall|k: EntryKey, v: ReputationFlags| #[trigger] d2.entries().contains_pair(k, v)
        implies target.contains_pair(k, v) by {
        match k {
            EntryKey::IpV6(a2) => {
                if spec_ip6_key(a2) == spec_ip6_key(a) {
                    crate::keys::lemma_ip6_key_injective(a2, a);
                }
            },
            _ => {},
        }
    }
    assert forall|k: EntryKey, v: ReputationFlags| #[trigger] target.contains_pair(k, v)
        implies d2.entries().contains_pair(k, v) by {
        match k {
            EntryKey::IpV6(a2) => {
                if spec_ip6_key(a2) == spec_ip6_key(a) {
                    crate::keys::lemma_ip6_key_injective(a2, a);
                }
            },
            _ => {},
        }
    }
    map_ext_pairs(d2.entries(), target);
}

/// Writing one encoded pair into the `cidr_v4` partition inserts
/// exactly one entry into the store's view.
proof fn lemma_put_cidr4(d1: Database, d2: Database, b: u128, p: u8, f: ReputationFlags)
    requires
        cidr_v4_table(d2.backend) == cidr_v4_table(d1.backend).insert(spec_cidr4_key(b, p), spec_encode_flags(f)),
        ip_v4_table(d2.backend) == ip_v4_table(d1.backend),
        ip_v6_table(d2.backend) == ip_v6_table(d1.backend),
        cidr_v6_table(d2.backend) == cidr_v6_table(d1.backend),
        fits(b, 32),
        p <= 32,
        is_prefix_bits(b, p as int, 32),
    ensures
        d2.entries() == d1.entries().insert(EntryKey::CidrV4(b, p), f),
{
    crate::flags::lemma_flags_roundtrip(f);
    let target = d1.entries().insert(EntryKey::CidrV4(b, p), f);
    assert forall|k: EntryKey, v: ReputationFlags| #[trigger] d2.entries().contains_pair(k, v)
        implies target.contains_pair(k, v) by {
        match k {
            EntryKey::CidrV4(b2, p2) => {
                if fits(b2, 32) && spec_cidr4_key(b2, p2) == spec_cidr4_key(b, p) {
                    lemma_cidr4_key_injective(b2, p2, b, p);
                }
            },
            _ => {},
        }
    }
    assert forall|k: EntryKey, v: ReputationFlags| #[trigger] target.contains_pair(k, v)
        implies d2.entries().contains_pair(k, v) by {
        match k {
            EntryKey::CidrV4(b2, p2) => {
                if fits(b2, 32) && spec_cidr4_key(b2, p2) == spec_cidr4_key(b, p) {
                    lemma_cidr4_key_injective(b2, p2, b, p);
                }
            },
            _ => {},
        }
    }
    map_ext_pairs(d2.entries(), target);
}

/// Removing one key from the `cidr_v4` partition removes exactly
/// one entry from the store's view.
proof fn lemma_del_cidr4(d1: Database, d2: Database, b: u128, p: u8)
    requires
        cidr_v4_table(d2.backend) == cidr_v4_table(d1.backend).remove(spec_cidr4_key(b, p)),
        ip_v4_table(d2.backend) == ip_v4_table(d1.backend),
        ip_v6_table(d2.backend) == ip_v6_table(d1.backend),
        cidr_v6_table(d2.backend) == cidr_v6_table(d1.backend),
        fits(b, 32),
        p <= 32,
        is_prefix_bits(b, p as int, 32),
    ensures
        d2.entries() == d1.entries().remove(EntryKey::CidrV4(b, p)),
{
    let target = d1.entries().remove(EntryKey::CidrV4(b, p));
    assert forall|k: EntryKey, v: ReputationFlags| #[trigger] d2.entries().contains_pair(k, v)
        implies target.contains_pair(k, v) by {
        match k {
            EntryKey::CidrV4(b2, p2) => {
                if fits(b2, 32) && spec_cidr4_key(b2, p2) == spec_cidr4_key(b, p) {
                    lemma_cidr4_key_injective(b2, p2, b, p);
                }
            },
            _ => {},
        }
    }
    assert forall|k: EntryKey, v: ReputationFlags| #[trigger] target.contains_pair(k, v)
        implies d2.entries().contains_pair(k, v) by {
        match k {
            EntryKey::CidrV4(b2, p2) => {
                if fits(b2, 32) && spec_cidr4_key(b2, p2) == spec_cidr4_key(b, p) {
                    lemma_cidr4_key_injective(b2, p2, b, p);
                }
            },
            _ => {},
        }
    }
    map_ext_pairs(d2.entries(), target);
}

/// Writing one encoded pair into the `cidr_v6` partition inserts
/// exactly one entry into the store's view.
proof fn lemma_put_cidr6(d1: Database, d2: Database, b: u128, p: u8, f: ReputationFlags)
    requires
        cidr_v6_table(d2.backend) == cidr_v6_table(d1.backend).insert(spec_cidr6_key(b, p), spec_encode_flags(f)),
        ip_v4_table(d2.backend) == ip_v4_table(d1.backend),
        ip_v6_table(d2.backend) == ip_v6_table(d1.backend),
        cidr_v4_table(d2.backend) == cidr_v4_table(d1.backend),
        p <= 128,
        is_prefix_bits(b, p as int, 128),
    ensures
        d2.entries() == d1.entries().insert(EntryKey::CidrV6(b, p), f),
{
    crate::flags::lemma_flags_roundtrip(f);
    let target = d1.entries().insert(EntryKey::CidrV6(b, p), f);
    assert forall|k: EntryKey, v: ReputationFlags| #[trigger] d2.entries().contains_pair(k, v)
        implies target.contains_pair(k, v) by {
        match k {
            EntryKey::CidrV6(b2, p2) => {
                if spec_cidr6_key(b2, p2) == spec_cidr6_key(b, p) {
                    lemma_cidr6_key_injective(b2, p2, b, p);
                }
            },
            _ => {},
        }
    }
    assert forall|k: EntryKey, v: ReputationFlags| #[trigger] target.contains_pair(k, v)
        implies d2.entries().contains_pair(k, v) by {
        match k {
            EntryKey::CidrV6(b2, p2) => {
                if spec_cidr6_key(b2, p2) == spec_cidr6_key(b, p) {
                    lemma_cidr6_key_injective(b2, p2, b, p);
                }
            },
            _ => {},
        }
    }
    map_ext_pairs(d2.entries(), target);
}

/// Removing one key from the `cidr_v6` partition removes exactly
/// one entry from the store's view.
proof fn lemma_del_cidr6(d1: Database, d2: Database, b: u128, p: u8)
    requires
        cidr_v6_table(d2.backend) == cidr_v6_table(d1.backend).remove(spec_cidr6_key(b, p)),
        ip_v4_table(d2.backend) == ip_v4_table(d1.backend),
        ip_v6_table(d2.backend) == ip_v6_table(d1.backend),
        cidr_v4_table(d2.backend) == cidr_v4_table(d1.backend),
        p <= 128,
        is_prefix_bits(b, p as int, 128),
    ensures
        d2.entries() == d1.entries().remove(EntryKey::CidrV6(b, p)),
{
    let target = d1.entries().remove(EntryKey::CidrV6(b, p));
    assert forall|k: EntryKey, v: ReputationFlags| #[trigger] d2.entries().contains_pair(k, v)
        implies target.contains_pair(k, v) by {
        match k {
            EntryKey::CidrV6(b2, p2) => {
                if spec_cidr6_key(b2, p2) == spec_cidr6_key(b, p) {
                    lemma_cidr6_key_injective(b2, p2, b, p);
                }
            },
            _ => {},
        }
    }
    assert forall|k: EntryKey, v: ReputationFlags| #[trigger] target.contains_pair(k, v)
        implies d2.entries().contains_pair(k, v) by {
        match k {
            EntryKey::CidrV6(b2, p2) => {
                if spec_cidr6_key(b2, p2) == spec_cidr6_key(b, p) {
                    lemma_cidr6_key_injective(b2, p2, b, p);
                }
            },
            _ => {},
        }
    }
    map_ext_pairs(d2.entries(), target);
}

/// A store whose four entry partitions are empty has no entries.
proof fn lemma_entries_empty(d: Database)
    requires
        ip_v4_table(d.backend) == (Map::<Seq<u8>, Seq<u8>>::empty()),
        ip_v6_table(d.backend) == (Map::<Seq<u8>, Seq<u8>>::empty()),
        cidr_v4_table(d.backend) == (Map::<Seq<u8>, Seq<u8>>::empty()),
        cidr_v6_table(d.backend) == (Map::<Seq<u8>, Seq<u8>>::empty()),
    ensures
        d.entries() == (Map::<EntryKey, ReputationFlags>::empty()),
{
    assert(d.entries() =~= Map::<EntryKey, ReputationFlags>::empty());
}

/// Stores with equal entry partitions have equal views.
proof fn lemma_same_entries(d1: Database, d2: Database)
    requires
        ip_v4_table(d2.backend) == ip_v4_table(d1.backend),
        ip_v6_table(d2.backend) == ip_v6_table(d1.backend),
        cidr_v4_table(d2.backend) == cidr_v4_table(d1.backend),
        cidr_v6_table(d2.backend) == cidr_v6_table(d1.backend),
    ensures
        d2.entries() == d1.entries(),
        d2.exact_v4() == d1.exact_v4(),
        d2.exact_v6() == d1.exact_v6(),
        d2.cidrs_v4() == d1.cidrs_v4(),
        d2.cidrs_v6() == d1.cidrs_v6(),
{
    assert(d2.exact_v4() =~= d1.exact_v4());
    assert(d2.exact_v6() =~= d1.exact_v6());
    assert(d2.cidrs_v4() =~= d1.cidrs_v4());
    assert(d2.cidrs_v6() =~= d1.cidrs_v6());
    assert(d2.entries() =~= d1.entries());
}

impl Database {
    /// What an exact-address probe of the store returns.
    pub open spec fn spec_exact_lookup(self, a: IpAddress) -> Option<ReputationFlags> {
        match a {
            IpAddress::V4(x) => if self.exact_v4().contains_key(x) {
                Some(self.exact_v4()[x])
            } else {
                None
            },
            IpAddress::V6(x) => if self.exact_v6().contains_key(x) {
                Some(self.exact_v6()[x])
            } else {
                None
            },
        }
    }

    /// What an exact-CIDR probe returns: the flags stored under the
    /// canonical form of the queried network.
    pub open spec fn spec_cidr_lookup(self, c: Cidr) -> Option<ReputationFlags> {
        let n = c.spec_network();
        let k = (n.addr.spec_carrier(), n.prefix);
        match n.addr {
            IpAddress::V4(_) => if self.cidrs_v4().contains_key(k) {
                Some(self.cidrs_v4()[k])
            } else {
                None
            },
            IpAddress::V6(_) => if self.cidrs_v6().contains_key(k) {
                Some(self.cidrs_v6()[k])
            } else {
                None
            },
        }
    }

    /// Open or create the five partitions under an existing directory
    /// and build the trie from the stored CIDRs.
    pub fn open(path: &str) -> (r: Result<Database, DbError>)
        ensures
            r matches Ok(d) ==> d.inv() && d.trie_in_sync(),
    {
        let backend = match StoreBackend::open(path) {
            Ok(b) => b,
            Err(e) => {
                return Err(DbError::Io(e));
            },
        };
        let mut d = Database { backend, trie: IpTrie::new() };
        match d.rebuild_trie() {
            Ok(()) => Ok(d),
            Err(e) => Err(e),
        }
    }

    /// Install a pre-built trie.
    pub fn swap_trie(&mut self, new_trie: IpTrie)
        requires
            new_trie.wf(),
        ensures
            final(self).inv(),
            Database::same_store(*old(self), *final(self)),
            final(self).entries() == old(self).entries(),
            final(self).trie_v4() == new_trie.v4_map(),
            final(self).trie_v6() == new_trie.v6_map(),
    {
        self.trie = new_trie;
    }

    /// Whether a read snapshot can be taken.
    pub fn is_healthy(&self) -> bool {
        self.backend.is_healthy()
    }

    /// Every stored CIDR covering the address, by the live trie,
    /// shortest prefix first; sound and complete for the trie's maps.
    pub fn find_matching_cidrs_fast(&self, ip: &IpAddress) -> (r: Vec<(Cidr, ReputationFlags)>)
        requires
            self.inv(),
        ensures
            forall|i: int|
                0 <= i < r@.len() ==> {
                    let c = (#[trigger] r@[i]).0;
                    &&& c.spec_canonical()
                    &&& c.addr.spec_is_v4() == ip.spec_is_v4()
                    &&& self.trie_family(ip.spec_is_v4()).contains_pair(
                        (c.addr.spec_carrier(), c.prefix),
                        r@[i].1,
                    )
                    &&& c.spec_covers(*ip)
                },
            forall|k: (u128, u8), f: ReputationFlags|
                #[trigger] self.trie_family(ip.spec_is_v4()).contains_pair(k, f)
                    && crate::bits::prefix_eq(
                    k.0,
                    ip.spec_carrier(),
                    k.1 as int,
                    ip.spec_total_bits(),
                ) ==> exists|i: int|
                    0 <= i < r@.len() && r@[i] == (
                        crate::trie::spec_cidr_of_key(k, ip.spec_is_v4()),
                        f,
                    ),
            forall|i1: int, i2: int|
                0 <= i1 < i2 < r@.len() ==> (#[trigger] r@[i1]).0.prefix < (
                #[trigger] r@[i2]).0.prefix,
    {
        let r = self.trie.find_all_matches(ip);
        proof {
            assert(self.trie_family(true) == self.trie.family_map(true));
            assert(self.trie_family(false) == self.trie.family_map(false));
            assert forall|k: (u128, u8), f: ReputationFlags|
                #[trigger] self.trie_family(ip.spec_is_v4()).contains_pair(k, f)
                    && crate::bits::prefix_eq(
                    k.0,
                    ip.spec_carrier(),
                    k.1 as int,
                    ip.spec_total_bits(),
                ) implies exists|i: int|
                0 <= i < r@.len() && r@[i] == (
                    crate::trie::spec_cidr_of_key(k, ip.spec_is_v4()),
                    f,
                ) by {
                assert(self.trie.family_map(ip.spec_is_v4()).contains_pair(k, f));
            }
        }
        r
    }

    /// Parse an entry string and store its flags under the matching
    /// key; unparseable entries are ignored.
    pub fn insert_record(&mut self, entry: &str, flags: &ReputationFlags) -> (r: Result<
        (),
        DbError,
    >)
        requires
            old(self).inv(),
        ensures
            final(self).inv(),
            Database::same_trie(*old(self), *final(self)),
            final(self).meta_raw() == old(self).meta_raw(),
            spec_entry_key(entry.spec_bytes()) is None ==> r is Ok,
            r is Ok ==> match spec_entry_key(entry.spec_bytes()) {
                Some(k) => final(self).entries() == old(self).entries().insert(k, *flags),
                None => final(self).entries() == old(self).entries(),
            },
            r is Err ==> final(self).entries() == old(self).entries(),
    {
        let ghost d0 = *self;
        let bytes = entry.as_bytes();
        let c = match parse_cidr_bytes(bytes) {
            Some(c) => c,
            None => {
                proof {
                    lemma_same_entries(d0, *self);
                }
                return Ok(());
            },
        };
        let fb = flags.encode();
        let max = c.addr.max_prefix_len();
        if c.prefix == max {
            match c.addr {
                IpAddress::V4(x) => {
                    let key = ip4_key(x);
                    match self.backend.put_ip_v4(key.as_slice(), fb.as_slice()) {
                        Ok(()) => {
                            proof {
                                lemma_put_ip4(d0, *self, x, *flags);
                            }
                            Ok(())
                        },
                        Err(e) => {
                            proof {
                                lemma_same_entries(d0, *self);
                            }
                            Err(DbError::Backend(e))
                        },
                    }
                },
                IpAddress::V6(x) => {
                    let key = ip6_key(x);
                    match self.backend.put_ip_v6(key.as_slice(), fb.as_slice()) {
                        Ok(()) => {
                            proof {
                                lemma_put_ip6(d0, *self, x, *flags);
                            }
                            Ok(())
                        },
                        Err(e) => {
                            proof {
                                lemma_same_entries(d0, *self);
                            }
                            Err(DbError::Backend(e))
                        },
                    }
                },
            }
        } else {
            let n = c.network();
            let carrier = n.addr.carrier();
            match n.addr {
                IpAddress::V4(_) => {
                    let key = cidr4_key(carrier, n.prefix);
                    match self.backend.put_cidr_v4(key.as_slice(), fb.as_slice()) {
                        Ok(()) => {
                            proof {
                                lemma_put_cidr4(d0, *self, carrier, n.prefix, *flags);
                            }
                            Ok(())
                        },
                        Err(e) => {
                            proof {
                                lemma_same_entries(d0, *self);
                            }
                            Err(DbError::Backend(e))
                        },
                    }
                },
                IpAddress::V6(_) => {
                    let key = cidr6_key(carrier, n.prefix);
                    match self.backend.put_cidr_v6(key.as_slice(), fb.as_slice()) {
                        Ok(()) => {
                            proof {
                                lemma_put_cidr6(d0, *self, carrier, n.prefix, *flags);
                            }
                            Ok(())
                        },
                        Err(e) => {
                            proof {
                                lemma_same_entries(d0, *self);
                            }
                            Err(DbError::Backend(e))
                        },
                    }
                },
            }
        }
    }

    /// Parse an entry string and delete its record; returns whether a
    /// record was stored under the key.  Unparseable entries delete
    /// nothing.
    pub fn delete_record(&mut self, entry: &str) -> (r: Result<bool, DbError>)
        requires
            old(self).inv(),
        ensures
            final(self).inv(),
            Database::same_trie(*old(self), *final(self)),
            final(self).meta_raw() == old(self).meta_raw(),
            spec_entry_key(entry.spec_bytes()) is None ==> r is Ok,
            r matches Ok(b) ==> match spec_entry_key(entry.spec_bytes()) {
                Some(k) => final(self).entries() == old(self).entries().remove(k) && b == old(
                    self,
                ).raw_has(k) && (old(self).entries().contains_key(k) ==> b),
                None => final(self).entries() == old(self).entries() && b == false,
            },
            r is Err ==> final(self).entries() == old(self).entries(),
    {
        let ghost d0 = *self;
        let bytes = entry.as_bytes();
        let c = match parse_cidr_bytes(bytes) {
            Some(c) => c,
            None => {
                proof {
                    lemma_same_entries(d0, *self);
                }
                return Ok(false);
            },
        };
        let max = c.addr.max_prefix_len();
        if c.prefix == max {
            match c.addr {
                IpAddress::V4(x) => {
                    let key = ip4_key(x);
                    match self.backend.del_ip_v4(key.as_slice()) {
                        Ok(b) => {
                            proof {
                                lemma_del_ip4(d0, *self, x);
                            }
                            Ok(b)
                        },
                        Err(e) => {
                            proof {
                                lemma_same_entries(d0, *self);
                            }
                            Err(DbError::Backend(e))
                        },
                    }
                },
                IpAddress::V6(x) => {
                    let key = ip6_key(x);
                    match self.backend.del_ip_v6(key.as_slice()) {
                        Ok(b) => {
                            proof {
                                lemma_del_ip6(d0, *self, x);
                            }
                            Ok(b)
                        },
                        Err(e) => {
                            proof {
                                lemma_same_entries(d0, *self);
                            }
                            Err(DbError::Backend(e))
                        },
                    }
                },
            }
        } else {
            let n = c.network();
            let carrier = n.addr.carrier();
            match n.addr {
                IpAddress::V4(_) => {
                    let key = cidr4_key(carrier, n.prefix);
                    match self.backend.del_cidr_v4(key.as_slice()) {
                        Ok(b) => {
                            proof {
                                lemma_del_cidr4(d0, *self, carrier, n.prefix);
                            }
                            Ok(b)
                        },
                        Err(e) => {
                            proof {
                                lemma_same_entries(d0, *self);
                            }
                            Err(DbError::Backend(e))
                        },
                    }
                },
                IpAddress::V6(_) => {
                    let key = cidr6_key(carrier, n.prefix);
                    match self.backend.del_cidr_v6(key.as_slice()) {
                        Ok(b) => {
                            proof {
                                lemma_del_cidr6(d0, *self, carrier, n.prefix);
                            }
                            Ok(b)
                        },
                        Err(e) => {
                            proof {
                                lemma_same_entries(d0, *self);
                            }
                            Err(DbError::Backend(e))
                        },
                    }
                },
            }
        }
    }

    /// Empty the four entry partitions.  The metadata record stays
    /// until a caller overwrites it.
    pub fn clear_all(&mut self) -> (r: Result<(), DbError>)
        requires
            old(self).inv(),
        ensures
            final(self).inv(),
            Database::same_trie(*old(self), *final(self)),
            final(self).meta_raw() == old(self).meta_raw(),
            r is Ok ==> final(self).entries() == (Map::<EntryKey, ReputationFlags>::empty()),
    {
        if let Err(e) = self.backend.clear_ip_v4() {
            return Err(DbError::Backend(e));
        }
        if let Err(e) = self.backend.clear_ip_v6() {
            return Err(DbError::Backend(e));
        }
        if let Err(e) = self.backend.clear_cidr_v4() {
            return Err(DbError::Backend(e));
        }
        if let Err(e) = self.backend.clear_cidr_v6() {
            return Err(DbError::Backend(e));
        }
        proof {
            lemma_entries_empty(*self);
        }
        Ok(())
    }

    /// Probe the exact table of the address's family.
    #[verifier::rlimit(100)]
    pub fn lookup_ip(&self, ip: &IpAddress) -> (r: Result<Option<ReputationFlags>, DbError>)
        ensures
            r matches Ok(o) ==> o == self.spec_exact_lookup(*ip),
    {
        match ip {
            IpAddress::V4(x) => {
                let key = ip4_key(*x);
                match self.backend.get_ip_v4(key.as_slice()) {
                    Ok(Some(vb)) => Ok(decode_flags_checked(&vb)),
                    Ok(None) => Ok(None),
                    Err(e) => Err(DbError::Backend(e)),
                }
            },
            IpAddress::V6(x) => {
                let key = ip6_key(*x);
                match self.backend.get_ip_v6(key.as_slice()) {
                    Ok(Some(vb)) => Ok(decode_flags_checked(&vb)),
                    Ok(None) => Ok(None),
                    Err(e) => Err(DbError::Backend(e)),
                }
            },
        }
    }

    /// Probe the exact tables for each address in turn; the answers
    /// are in the callers' order.
    pub fn lookup_ips_batch(&self, ips: &Vec<IpAddress>) -> (r: Result<
        Vec<Option<ReputationFlags>>,
        DbError,
    >)
        ensures
            r matches Ok(v) ==> v@.len() == ips@.len() && forall|i: int|
                0 <= i < v@.len() ==> v@[i] == self.spec_exact_lookup(ips@[i]),
    {
        let mut out: Vec<Option<ReputationFlags>> = Vec::new();
        let mut i: usize = 0;
        while i < ips.len()
            invariant
                i <= ips@.len(),
                out@.len() == i,
                forall|j: int| 0 <= j < i ==> out@[j] == self.spec_exact_lookup(ips@[j]),
            decreases ips@.len() - i,
        {
            let o = match self.lookup_ip(&ips[i]) {
                Ok(o) => o,
                Err(e) => {
                    return Err(e);
                },
            };
            out.push(o);
            i = i + 1;
        }
        Ok(out)
    }

    /// Probe the CIDR table of the network's family, under the
    /// network's canonical key.
    #[verifier::rlimit(100)]
    pub fn lookup_cidr(&self, network: &Cidr) -> (r: Result<Option<ReputationFlags>, DbError>)
        requires
            network.spec_wf(),
        ensures
            r matches Ok(o) ==> o == self.spec_cidr_lookup(*network),
    {
        let n = network.network();
        let carrier = n.addr.carrier();
        match n.addr {
            IpAddress::V4(_) => {
                let key = cidr4_key(carrier, n.prefix);
                match self.backend.get_cidr_v4(key.as_slice()) {
                    Ok(Some(vb)) => Ok(decode_flags_checked(&vb)),
                    Ok(None) => Ok(None),
                    Err(e) => Err(DbError::Backend(e)),
                }
            },
            IpAddress::V6(_) => {
                let key = cidr6_key(carrier, n.prefix);
                match self.backend.get_cidr_v6(key.as_slice()) {
                    Ok(Some(vb)) => Ok(decode_flags_checked(&vb)),
                    Ok(None) => Ok(None),
                    Err(e) => Err(DbError::Backend(e)),
                }
            },
        }
    }

    /// Probe the CIDR tables for each network in turn.
    pub fn lookup_cidrs_batch(&self, networks: &Vec<Cidr>) -> (r: Result<
        Vec<Option<ReputationFlags>>,
        DbError,
    >)
        requires
            forall|i: int| 0 <= i < networks@.len() ==> (#[trigger] networks@[i]).spec_wf(),
        ensures
            r matches Ok(v) ==> v@.len() == networks@.len() && forall|i: int|
                0 <= i < v@.len() ==> v@[i] == self.spec_cidr_lookup(networks@[i]),
    {
        let mut out: Vec<Option<ReputationFlags>> = Vec::new();
        let mut i: usize = 0;
        while i < networks.len()
            invariant
                i <= networks@.len(),
                out@.len() == i,
                forall|j: int| 0 <= j < networks@.len() ==> (#[trigger] networks@[j]).spec_wf(),
                forall|j: int| 0 <= j < i ==> out@[j] == self.spec_cidr_lookup(networks@[j]),
            decreases networks@.len() - i,
        {
            let o = match self.lookup_cidr(&networks[i]) {
                Ok(o) => o,
                Err(e) => {
                    return Err(e);
                },
            };
            out.push(o);
            i = i + 1;
        }
        Ok(out)
    }

    /// Read the metadata record; a store that has none yields the
    /// defaults, and an undecodable record is a backend error.
    pub fn get_metadata(&self) -> (r: Result<Metadata, DbError>)
        ensures
            r matches Ok(m) ==> match self.meta_raw() {
                Some(bytes) => spec_encode_metadata(m) == bytes
                    && crate::meta::spec_metadata_ascii(m),
                None => m.last_sync is None && m.csv_hash is None && m.record_count == 0,
            },
    {
        let key = meta_key();
        match self.backend.get_meta(key.as_slice()) {
            Ok(Some(vb)) => match decode_metadata(vb.as_slice()) {
                Some(m) => Ok(m),
                None => Err(DbError::Backend(String::from_str("undecodable metadata record"))),
            },
            Ok(None) => Ok(Metadata::default()),
            Err(e) => Err(DbError::Backend(e)),
        }
    }

    /// Write the metadata record.
    pub fn set_metadata(&mut self, m: &Metadata) -> (r: Result<(), DbError>)
        requires
            old(self).inv(),
        ensures
            final(self).inv(),
            Database::same_trie(*old(self), *final(self)),
            final(self).entries() == old(self).entries(),
            final(self).cidrs_v4() == old(self).cidrs_v4(),
            final(self).cidrs_v6() == old(self).cidrs_v6(),
            final(self).exact_v4() == old(self).exact_v4(),
            final(self).exact_v6() == old(self).exact_v6(),
            r is Ok ==> final(self).meta_raw() == Some(spec_encode_metadata(*m)),
            r is Err ==> final(self).meta_raw() == old(self).meta_raw(),
    {
        let ghost d0 = *self;
        let key = meta_key();
        let vb = encode_metadata(m);
        match self.backend.put_meta(key.as_slice(), vb.as_slice()) {
            Ok(()) => {
                proof {
                    lemma_same_entries(d0, *self);
                }
                Ok(())
            },
            Err(e) => {
                proof {
                    lemma_same_entries(d0, *self);
                }
                Err(DbError::Backend(e))
            },
        }
    }

    /// Whether all four entry partitions hold no rows.
    pub fn is_empty(&self) -> (r: Result<bool, DbError>)
        ensures
            r matches Ok(b) ==> b == self.spec_store_is_empty(),
            r matches Ok(b) && b ==> self.entries() == (Map::<EntryKey, ReputationFlags>::empty()),
    {
        let n1 = match self.backend.len_ip_v4() {
            Ok(n) => n,
            Err(e) => {
                return Err(DbError::Backend(e));
            },
        };
        let n2 = match self.backend.len_ip_v6() {
            Ok(n) => n,
            Err(e) => {
                return Err(DbError::Backend(e));
            },
        };
        let n3 = match self.backend.len_cidr_v4() {
            Ok(n) => n,
            Err(e) => {
                return Err(DbError::Backend(e));
            },
        };
        let n4 = match self.backend.len_cidr_v6() {
            Ok(n) => n,
            Err(e) => {
                return Err(DbError::Backend(e));
            },
        };
        let b = n1 == 0 && n2 == 0 && n3 == 0 && n4 == 0;
        proof {
            if b {
                lemma_len0_tables_empty(*self);
                assert(ip_v4_table(self.backend).dom() =~= Set::<Seq<u8>>::empty());
                assert(ip_v6_table(self.backend).dom() =~= Set::<Seq<u8>>::empty());
                assert(cidr_v4_table(self.backend).dom() =~= Set::<Seq<u8>>::empty());
                assert(cidr_v6_table(self.backend).dom() =~= Set::<Seq<u8>>::empty());
                assert(self.entries() =~= Map::<EntryKey, ReputationFlags>::empty());
            } else {
                assert(Set::<Seq<u8>>::empty().len() == 0);
            }
        }
        Ok(b)
    }
}

/// Decode a stored flag value; an undecodable value reads as absent.
fn decode_flags_checked(vb: &Vec<u8>) -> (r: Option<ReputationFlags>)
    ensures
        match r {
            Some(f) => spec_encode_flags(f) == vb@,
            None => !spec_flags_decodable(vb@),
        },
{
    ReputationFlags::decode(vb.as_slice())
}

/// Partitions with zero rows make the store's view empty.
proof fn lemma_len0_tables_empty(d: Database)
    requires
        ip_v4_table(d.backend).dom().finite(),
        ip_v6_table(d.backend).dom().finite(),
        cidr_v4_table(d.backend).dom().finite(),
        cidr_v6_table(d.backend).dom().finite(),
        ip_v4_table(d.backend).len() == 0,
        ip_v6_table(d.backend).len() == 0,
        cidr_v4_table(d.backend).len() == 0,
        cidr_v6_table(d.backend).len() == 0,
    ensures
        d.entries() =~= Map::<EntryKey, ReputationFlags>::empty(),
        forall|k: Seq<u8>| !(#[trigger] ip_v4_table(d.backend).contains_key(k)),
        forall|k: Seq<u8>| !(#[trigger] ip_v6_table(d.backend).contains_key(k)),
        forall|k: Seq<u8>| !(#[trigger] cidr_v4_table(d.backend).contains_key(k)),
        forall|k: Seq<u8>| !(#[trigger] cidr_v6_table(d.backend).contains_key(k)),
{
    lemma_empty_table(ip_v4_table(d.backend));
    lemma_empty_table(ip_v6_table(d.backend));
    lemma_empty_table(cidr_v4_table(d.backend));
    lemma_empty_table(cidr_v6_table(d.backend));
}

/// A finite map of zero length has no keys.
proof fn lemma_empty_table(m: Map<Seq<u8>, Seq<u8>>)
    requires
        m.dom().finite(),
        m.len() == 0,
    ensures
        forall|k: Seq<u8>| !(#[trigger] m.contains_key(k)),
{
    m.dom().lemma_len0_is_empty();
    assert forall|k: Seq<u8>| !(#[trigger] m.contains_key(k)) by {
        assert(m.dom() =~= Set::<Seq<u8>>::empty());
    }
}

/// The canonical text under which a stored entry key is reported.
pub open spec fn spec_fmt_entry_key(k: EntryKey) -> Seq<u8> {
    match k {
        EntryKey::IpV4(a) => crate::fmt::spec_fmt_ipv4(a),
        EntryKey::IpV6(a) => crate::fmt::spec_fmt_ipv6(a),
        EntryKey::CidrV4(b, p) => crate::fmt::spec_fmt_cidr(
            Cidr { addr: IpAddress::V4(b as u32), prefix: p },
        ),
        EntryKey::CidrV6(b, p) => crate::fmt::spec_fmt_cidr(
            Cidr { addr: IpAddress::V6(b), prefix: p },
        ),
    }
}

impl Database {
    /// Rebuild the trie from the two CIDR partitions and install it.
    /// On success the live trie holds exactly the stored CIDRs.
    #[verifier::loop_isolation(false)]
    #[verifier::rlimit(100)]
    pub fn rebuild_trie(&mut self) -> (r: Result<(), DbError>)
        requires
            old(self).inv(),
        ensures
            final(self).inv(),
            Database::same_store(*old(self), *final(self)),
            final(self).entries() == old(self).entries(),
            r is Ok ==> final(self).trie_in_sync(),
            r is Err ==> Database::same_trie(*old(self), *final(self)),
    {
        let ghost d0 = *self;
        let list4 = match self.backend.list_cidr_v4() {
            Ok(v) => v,
            Err(e) => {
                return Err(DbError::Backend(e));
            },
        };
        let list6 = match self.backend.list_cidr_v6() {
            Ok(v) => v,
            Err(e) => {
                return Err(DbError::Backend(e));
            },
        };
        let mut t = IpTrie::new();
        let mut i: usize = 0;
        while i < list4.len()
            invariant
                t.wf(),
                t.v6_map() == (Map::<(u128, u8), ReputationFlags>::empty()),
                i <= list4@.len(),
                forall|k: (u128, u8), f: ReputationFlags| #![auto]
                    t.v4_map().contains_pair(k, f) ==> d0.cidrs_v4().contains_pair(k, f) && (
                    exists|j: int|
                        0 <= j < i && (#[trigger] list4@[j]).0@ == spec_cidr4_key(k.0, k.1)),
                forall|k: (u128, u8), f: ReputationFlags| #![auto]
                    d0.cidrs_v4().contains_pair(k, f) && (exists|j: int|
                        0 <= j < i && (#[trigger] list4@[j]).0@ == spec_cidr4_key(k.0, k.1))
                        ==> t.v4_map().contains_pair(k, f),
            decreases list4@.len() - i,
        {
            let ghost tv0 = t.v4_map();
            let kb_s = list4[i].0.as_slice();
            let vb_s = list4[i].1.as_slice();
            let mut inserted: bool = false;
            let ghost mut gkey: (u128, u8) = (0u128, 0u8);
            let ghost mut gf = ReputationFlags {
                anonblock: false,
                proxy: false,
                vpn: false,
                cdn: false,
                public_wifi: false,
                rangeblock: false,
                school_block: false,
                tor: false,
                webhost: false,
            };
            let dec = cidr4_of_key(kb_s);
            match dec {
                Some((bits, prefix)) => {
                    if prefix <= 32 && crate::bits::mask_prefix(bits, prefix, 32) == bits {
                        match ReputationFlags::decode(vb_s) {
                            Some(f) => {
                                proof {
                                    assert(bits >> 32u128 == 0 ==> bits < 0x1_0000_0000)
                                        by (bit_vector);
                                    crate::addr::lemma_u32_carrier_fits(bits as u32);
                                    assert((bits as u32) as u128 == bits) by (bit_vector)
                                        requires
                                            bits < 0x1_0000_0000,
                                    ;
                                }
                                let c = Cidr { addr: IpAddress::V4(bits as u32), prefix };
                                t.insert(&c, f);
                                inserted = true;
                                proof {
                                    gkey = (bits, prefix);
                                    gf = f;
                                    assert(c.spec_network() == c);
                                    crate::flags::lemma_flags_roundtrip(f);
                                }
                            },
                            None => {},
                        }
                    }
                },
                None => {},
            }
            proof {
                let ik = (list4@[i as int]).0@;
                assert forall|k: (u128, u8), f: ReputationFlags| #![auto]
                    t.v4_map().contains_pair(k, f) implies d0.cidrs_v4().contains_pair(k, f) && (
                exists|j: int|
                    0 <= j < i + 1 && (#[trigger] list4@[j]).0@ == spec_cidr4_key(k.0, k.1)) by {
                    if inserted && k == gkey && f == gf {
                        assert(d0.cidrs_v4().contains_pair(k, f));
                        assert((list4@[i as int]).0@ == spec_cidr4_key(k.0, k.1));
                    }
                }
                assert forall|k: (u128, u8), f: ReputationFlags| #![auto]
                    d0.cidrs_v4().contains_pair(k, f) && (exists|j: int|
                        0 <= j < i + 1 && (#[trigger] list4@[j]).0@ == spec_cidr4_key(
                            k.0,
                            k.1,
                        )) implies t.v4_map().contains_pair(k, f) by {
                    if d0.cidrs_v4().contains_pair(k, f) && ik == spec_cidr4_key(k.0, k.1) {
                        assert(cidr_v4_table(d0.backend).contains_pair(ik, (list4@[i as int]).1@));
                        assert(cidr_v4_table(d0.backend)[ik] == (list4@[i as int]).1@);
                        if dec is Some {
                            let (bits0, prefix0) = dec->0;
                            lemma_cidr4_key_injective(k.0, k.1, bits0, prefix0);
                        }
                        if inserted {
                            assert(fits(gkey.0, 32));
                            lemma_cidr4_key_injective(k.0, k.1, gkey.0, gkey.1);
                            assert(k == gkey);
                            assert(f == gf);
                        } else {
                            assert(false);
                        }
                    }
                }
            }
            i = i + 1;
        }
        proof {
            assert forall|k: (u128, u8), f: ReputationFlags| #[trigger]
                d0.cidrs_v4().contains_pair(k, f) implies t.v4_map().contains_pair(k, f) by {
                assert(cidr_v4_table(d0.backend).contains_key(spec_cidr4_key(k.0, k.1)));
            }
            assert forall|k: (u128, u8), f: ReputationFlags| #[trigger]
                t.v4_map().contains_pair(k, f) implies d0.cidrs_v4().contains_pair(k, f) by {}
            map_ext_pairs(t.v4_map(), d0.cidrs_v4());
        }
        let mut i2: usize = 0;
        while i2 < list6.len()
            invariant
                t.wf(),
                t.v4_map() == d0.cidrs_v4(),
                i2 <= list6@.len(),
                forall|k: (u128, u8), f: ReputationFlags| #![auto]
                    t.v6_map().contains_pair(k, f) ==> d0.cidrs_v6().contains_pair(k, f) && (
                    exists|j: int|
                        0 <= j < i2 && (#[trigger] list6@[j]).0@ == spec_cidr6_key(k.0, k.1)),
                forall|k: (u128, u8), f: ReputationFlags| #![auto]
                    d0.cidrs_v6().contains_pair(k, f) && (exists|j: int|
                        0 <= j < i2 && (#[trigger] list6@[j]).0@ == spec_cidr6_key(k.0, k.1))
                        ==> t.v6_map().contains_pair(k, f),
            decreases list6@.len() - i2,
        {
            let kb_s = list6[i2].0.as_slice();
            let vb_s = list6[i2].1.as_slice();
            let mut inserted: bool = false;
            let ghost mut gkey: (u128, u8) = (0u128, 0u8);
            let ghost mut gf = ReputationFlags {
                anonblock: false,
                proxy: false,
                vpn: false,
                cdn: false,
                public_wifi: false,
                rangeblock: false,
                school_block: false,
                tor: false,
                webhost: false,
            };
            let dec = cidr6_of_key(kb_s);
            match dec {
                Some((bits, prefix)) => {
                    if prefix <= 128 && crate::bits::mask_prefix(bits, prefix, 128) == bits {
                        match ReputationFlags::decode(vb_s) {
                            Some(f) => {
                                let c = Cidr { addr: IpAddress::V6(bits), prefix };
                                t.insert(&c, f);
                                inserted = true;
                                proof {
                                    gkey = (bits, prefix);
                                    gf = f;
                                    assert(c.spec_network() == c);
                                    crate::flags::lemma_flags_roundtrip(f);
                                }
                            },
                            None => {},
                        }
                    }
                },
                None => {},
            }
            proof {
                let ik = (list6@[i2 as int]).0@;
                assert forall|k: (u128, u8), f: ReputationFlags| #![auto]
                    t.v6_map().contains_pair(k, f) implies d0.cidrs_v6().contains_pair(k, f) && (
                exists|j: int|
                    0 <= j < i2 + 1 && (#[trigger] list6@[j]).0@ == spec_cidr6_key(k.0, k.1)) by {
                    if inserted && k == gkey && f == gf {
                        assert(d0.cidrs_v6().contains_pair(k, f));
                        assert((list6@[i2 as int]).0@ == spec_cidr6_key(k.0, k.1));
                    }
                }
                assert forall|k: (u128, u8), f: ReputationFlags| #![auto]
                    d0.cidrs_v6().contains_pair(k, f) && (exists|j: int|
                        0 <= j < i2 + 1 && (#[trigger] list6@[j]).0@ == spec_cidr6_key(
                            k.0,
                            k.1,
                        )) implies t.v6_map().contains_pair(k, f) by {
                    if d0.cidrs_v6().contains_pair(k, f) && ik == spec_cidr6_key(k.0, k.1) {
                        assert(cidr_v6_table(d0.backend).contains_pair(ik, (list6@[i2 as int]).1@));
                        assert(cidr_v6_table(d0.backend)[ik] == (list6@[i2 as int]).1@);
                        if dec is Some {
                            let (bits0, prefix0) = dec->0;
                            lemma_cidr6_key_injective(k.0, k.1, bits0, prefix0);
                        }
                        if inserted {
                            lemma_cidr6_key_injective(k.0, k.1, gkey.0, gkey.1);
                            assert(k == gkey);
                            assert(f == gf);
                        } else {
                            assert(false);
                        }
                    }
                }
            }
            i2 = i2 + 1;
        }
        proof {
            assert forall|k: (u128, u8), f: ReputationFlags| #[trigger]
                d0.cidrs_v6().contains_pair(k, f) implies t.v6_map().contains_pair(k, f) by {
                assert(cidr_v6_table(d0.backend).contains_key(spec_cidr6_key(k.0, k.1)));
            }
            assert forall|k: (u128, u8), f: ReputationFlags| #[trigger]
                t.v6_map().contains_pair(k, f) implies d0.cidrs_v6().contains_pair(k, f) by {}
            map_ext_pairs(t.v6_map(), d0.cidrs_v6());
        }
        self.trie = t;
        Ok(())
    }

    /// Every stored entry as its canonical text with its flags, in an
    /// unspecified order; sound and complete for the store's view,
    /// with pairwise distinct entry texts.  Rows whose canonical texts
    /// collide with different flags are refused as a corrupt store.
    #[verifier::loop_isolation(false)]
    #[verifier::rlimit(100)]
    pub fn get_all_entries(&self) -> (r: Result<Vec<(String, ReputationFlags)>, DbError>)
        ensures
            r matches Ok(v) ==> {
                &&& out_sound(v@, *self)
                &&& forall|k: EntryKey, f: ReputationFlags|
                    #[trigger] self.entries().contains_pair(k, f) ==> found_in(v@, k, f)
                &&& out_distinct(v@)
            },
    {
        let l1 = match self.backend.list_ip_v4() {
            Ok(v) => v,
            Err(e) => {
                return Err(DbError::Backend(e));
            },
        };
        let l2 = match self.backend.list_ip_v6() {
            Ok(v) => v,
            Err(e) => {
                return Err(DbError::Backend(e));
            },
        };
        let l3 = match self.backend.list_cidr_v4() {
            Ok(v) => v,
            Err(e) => {
                return Err(DbError::Backend(e));
            },
        };
        let l4 = match self.backend.list_cidr_v6() {
            Ok(v) => v,
            Err(e) => {
                return Err(DbError::Backend(e));
            },
        };
        let mut out: Vec<(String, ReputationFlags)> = Vec::new();
        collect_ip4(self, &l1, &mut out);
        collect_ip6(self, &l2, &mut out);
        collect_cidr4(self, &l3, &mut out);
        collect_cidr6(self, &l4, &mut out);
        proof {
            assert forall|k: EntryKey, f: ReputationFlags|
                #[trigger] self.entries().contains_pair(k, f) implies found_in(out@, k, f) by {
                match k {
                    EntryKey::IpV4(a) => {
                        assert(self.exact_v4().contains_pair(a, f));
                    },
                    EntryKey::IpV6(a) => {
                        assert(self.exact_v6().contains_pair(a, f));
                    },
                    EntryKey::CidrV4(b, p) => {
                        assert(self.cidrs_v4().contains_pair((b, p), f));
                    },
                    EntryKey::CidrV6(b, p) => {
                        assert(self.cidrs_v6().contains_pair((b, p), f));
                    },
                }
            }
        }
        let mut dedup: Vec<(String, ReputationFlags)> = Vec::new();
        let mut i: usize = 0;
        while i < out.len()
            invariant
                i <= out@.len(),
                out_sound(dedup@, *self),
                out_distinct(dedup@),
                forall|j: int| #![trigger out@[j]]
                    0 <= j < i ==> exists|d: int|
                        0 <= d < dedup@.len() && (#[trigger] dedup@[d]).0@ == out@[j].0@
                            && dedup@[d].1 == out@[j].1,
            decreases out@.len() - i,
        {
            let ghost dedup0 = dedup@;
            let mut found: Option<usize> = None;
            let mut d: usize = 0;
            while d < dedup.len()
                invariant
                    d <= dedup@.len(),
                    match found {
                        Some(d0) => d0 < dedup@.len() && dedup@[d0 as int].0@ == out@[i as int].0@,
                        None => forall|e: int|
                            0 <= e < d ==> (#[trigger] dedup@[e]).0@ != out@[i as int].0@,
                    },
                decreases dedup@.len() - d,
            {
                if found.is_none() && dedup[d].0.eq(&out[i].0) {
                    found = Some(d);
                }
                d = d + 1;
            }
            match found {
                Some(d0) => {
                    if dedup[d0].1 != out[i].1 {
                        return Err(
                            DbError::Backend(String::from_str("colliding canonical entry texts")),
                        );
                    }
                },
                None => {
                    let e = (out[i].0.clone(), out[i].1);
                    dedup.push(e);
                    proof {
                        assert(elem_sound(out@, i as int, *self));
                        let k = choose|k: EntryKey|
                            self.entries().contains_pair(k, out@[i as int].1) && out@[i as int].0@
                                == crate::fmt::ascii_chars_of(spec_fmt_entry_key(k));
                        assert(dedup@[dedup@.len() - 1].1 == out@[i as int].1);
                        extend_sound_push(dedup0, dedup@, *self, k);
                    }
                },
            }
            proof {
                assert forall|j: int| #![trigger out@[j]] 0 <= j < i + 1 implies exists|d2: int|
                    0 <= d2 < dedup@.len() && (#[trigger] dedup@[d2]).0@ == out@[j].0@
                        && dedup@[d2].1 == out@[j].1 by {
                    if j < i {
                        let d2 = choose|d2: int|
                            0 <= d2 < dedup0.len() && (#[trigger] dedup0[d2]).0@ == out@[j].0@
                                && dedup0[d2].1 == out@[j].1;
                        assert(dedup@[d2] == dedup0[d2]);
                    } else {
                        if found is Some {
                            let d0 = found->0 as int;
                            assert(dedup@[d0].0@ == out@[j].0@ && dedup@[d0].1 == out@[j].1);
                        } else {
                            assert(dedup@[dedup@.len() - 1].0@ == out@[j].0@);
                        }
                    }
                }
            }
            i = i + 1;
        }
        proof {
            assert forall|k: EntryKey, f: ReputationFlags|
                #[trigger] self.entries().contains_pair(k, f) implies found_in(dedup@, k, f) by {
                assert(found_in(out@, k, f));
                let idx = choose|idx: int|
                    0 <= idx < out@.len() && (#[trigger] out@[idx]).1 == f && out@[idx].0@
                        == crate::fmt::ascii_chars_of(spec_fmt_entry_key(k));
                let d2 = choose|d2: int|
                    0 <= d2 < dedup@.len() && (#[trigger] dedup@[d2]).0@ == out@[idx].0@
                        && dedup@[d2].1 == out@[idx].1;
                assert(dedup@[d2].1 == f);
            }
        }
        Ok(dedup)
    }
}

/// No two output rows share an entry text.
pub open spec fn out_distinct(v: Seq<(String, ReputationFlags)>) -> bool {
    forall|i1: int, i2: int|
        0 <= i1 < i2 < v.len() ==> (#[trigger] v[i1]).0@ != (#[trigger] v[i2]).0@
}


/// Collect the `ip_v4` partition into the output.
#[verifier::loop_isolation(false)]
#[verifier::rlimit(100)]
fn collect_ip4(d: &Database, l: &Vec<(Vec<u8>, Vec<u8>)>, out: &mut Vec<(String, ReputationFlags)>)
    requires
        forall|i: int|
            0 <= i < l@.len() ==> ip_v4_table(d.backend).contains_pair(
                (#[trigger] l@[i]).0@,
                l@[i].1@,
            ),
        forall|k: Seq<u8>|
            #[trigger] ip_v4_table(d.backend).contains_key(k) ==> exists|i: int|
                0 <= i < l@.len() && l@[i].0@ == k && l@[i].1@ == ip_v4_table(d.backend)[k],
        out_sound(old(out)@, *d),
    ensures
        out_sound(final(out)@, *d),
        forall|k: EntryKey, f: ReputationFlags|
            #[trigger] found_in(old(out)@, k, f) ==> found_in(final(out)@, k, f),
        forall|a: u32, f: ReputationFlags|
            #[trigger] d.exact_v4().contains_pair(a, f) ==> found_in(final(out)@, EntryKey::IpV4(a), f),
{
    let mut i: usize = 0;
    while i < l.len()
        invariant
            i <= l@.len(),
            out_sound(out@, *d),
            forall|k: EntryKey, f: ReputationFlags|
                #[trigger] found_in(old(out)@, k, f) ==> found_in(out@, k, f),
            forall|a: u32, f: ReputationFlags| #![auto]
                d.exact_v4().contains_pair(a, f) && (exists|j: int|
                    0 <= j < i && (#[trigger] l@[j]).0@ == spec_ip4_key(a)) ==> found_in(
                    out@,
                    EntryKey::IpV4(a),
                    f,
                ),
        decreases l@.len() - i,
    {
        let ghost out0 = out@;
        let kb_s = l[i].0.as_slice();
        let vb_s = l[i].1.as_slice();
        let deca = crate::keys::ip4_of_key(kb_s);
        match deca {
            Some(a) => {
                match ReputationFlags::decode(vb_s) {
                    Some(f) => {
                        let s = crate::fmt::ip_to_string(&IpAddress::V4(a));
                        out.push((s, f));
                        proof {
                            crate::flags::lemma_flags_roundtrip(f);
                            assert(ip_v4_table(d.backend).contains_pair(
                                (l@[i as int]).0@,
                                (l@[i as int]).1@,
                            ));
                            assert(d.entries().contains_pair(EntryKey::IpV4(a), f));
                            extend_sound_push(out0, out@, *d, EntryKey::IpV4(a));
                        }
                    },
                    None => {},
                }
            },
            None => {},
        }
        proof {
            extend_found(out0, out@, *d);
            assert forall|a: u32, f: ReputationFlags| #![auto]
                d.exact_v4().contains_pair(a, f) && (exists|j: int|
                    0 <= j < i + 1 && (#[trigger] l@[j]).0@ == spec_ip4_key(a)) implies found_in(
                out@,
                EntryKey::IpV4(a),
                f,
            ) by {
                if exists|j: int| 0 <= j < i && (#[trigger] l@[j]).0@ == spec_ip4_key(a) {
                    assert(found_in(out0, EntryKey::IpV4(a), f));
                } else if (l@[i as int]).0@ == spec_ip4_key(a) {
                    assert(ip_v4_table(d.backend).contains_pair((l@[i as int]).0@, (l@[i as int]).1@));
                    if deca is Some {
                        crate::keys::lemma_ip4_key_injective(a, deca->0);
                    }
                    assert(out@[out@.len() - 1].1 == f);
                }
            }
        }
        i = i + 1;
    }
    proof {
        assert forall|a: u32, f: ReputationFlags|
            #[trigger] d.exact_v4().contains_pair(a, f) implies found_in(out@, EntryKey::IpV4(a), f) by {
            assert(ip_v4_table(d.backend).contains_key(spec_ip4_key(a)));
        }
    }
}

/// Collect the `ip_v6` partition into the output.
#[verifier::loop_isolation(false)]
#[verifier::rlimit(100)]
fn collect_ip6(d: &Database, l: &Vec<(Vec<u8>, Vec<u8>)>, out: &mut Vec<(String, ReputationFlags)>)
    requires
        forall|i: int|
            0 <= i < l@.len() ==> ip_v6_table(d.backend).contains_pair(
                (#[trigger] l@[i]).0@,
                l@[i].1@,
            ),
        forall|k: Seq<u8>|
            #[trigger] ip_v6_table(d.backend).contains_key(k) ==> exists|i: int|
                0 <= i < l@.len() && l@[i].0@ == k && l@[i].1@ == ip_v6_table(d.backend)[k],
        out_sound(old(out)@, *d),
    ensures
        out_sound(final(out)@, *d),
        forall|k: EntryKey, f: ReputationFlags|
            #[trigger] found_in(old(out)@, k, f) ==> found_in(final(out)@, k, f),
        forall|a: u128, f: ReputationFlags|
            #[trigger] d.exact_v6().contains_pair(a, f) ==> found_in(final(out)@, EntryKey::IpV6(a), f),
{
    let mut i: usize = 0;
    while i < l.len()
        invariant
            i <= l@.len(),
            out_sound(out@, *d),
            forall|k: EntryKey, f: ReputationFlags|
                #[trigger] found_in(old(out)@, k, f) ==> found_in(out@, k, f),
            forall|a: u128, f: ReputationFlags| #![auto]
                d.exact_v6().contains_pair(a, f) && (exists|j: int|
                    0 <= j < i && (#[trigger] l@[j]).0@ == spec_ip6_key(a)) ==> found_in(
                    out@,
                    EntryKey::IpV6(a),
                    f,
                ),
        decreases l@.len() - i,
    {
        let ghost out0 = out@;
        let kb_s = l[i].0.as_slice();
        let vb_s = l[i].1.as_slice();
        let deca = crate::keys::ip6_of_key(kb_s);
        match deca {
            Some(a) => {
                match ReputationFlags::decode(vb_s) {
                    Some(f) => {
                        let s = crate::fmt::ip_to_string(&IpAddress::V6(a));
                        out.push((s, f));
                        proof {
                            crate::flags::lemma_flags_roundtrip(f);
                            assert(ip_v6_table(d.backend).contains_pair(
                                (l@[i as int]).0@,
                                (l@[i as int]).1@,
                            ));
                            assert(d.entries().contains_pair(EntryKey::IpV6(a), f));
                            extend_sound_push(out0, out@, *d, EntryKey::IpV6(a));
                        }
                    },
                    None => {},
                }
            },
            None => {},
        }
        proof {
            extend_found(out0, out@, *d);
            assert forall|a: u128, f: ReputationFlags| #![auto]
                d.exact_v6().contains_pair(a, f) && (exists|j: int|
                    0 <= j < i + 1 && (#[trigger] l@[j]).0@ == spec_ip6_key(a)) implies found_in(
                out@,
                EntryKey::IpV6(a),
                f,
            ) by {
                if exists|j: int| 0 <= j < i && (#[trigger] l@[j]).0@ == spec_ip6_key(a) {
                    assert(found_in(out0, EntryKey::IpV6(a), f));
                } else if (l@[i as int]).0@ == spec_ip6_key(a) {
                    assert(ip_v6_table(d.backend).contains_pair((l@[i as int]).0@, (l@[i as int]).1@));
                    if deca is Some {
                        crate::keys::lemma_ip6_key_injective(a, deca->0);
                    }
                    assert(out@[out@.len() - 1].1 == f);
                }
            }
        }
        i = i + 1;
    }
    proof {
        assert forall|a: u128, f: ReputationFlags|
            #[trigger] d.exact_v6().contains_pair(a, f) implies found_in(out@, EntryKey::IpV6(a), f) by {
            assert(ip_v6_table(d.backend).contains_key(spec_ip6_key(a)));
        }
    }
}

/// Collect the `cidr_v4` partition into the output; keys
/// that are not canonical CIDR keys are skipped.
#[verifier::loop_isolation(false)]
#[verifier::rlimit(100)]
fn collect_cidr4(d: &Database, l: &Vec<(Vec<u8>, Vec<u8>)>, out: &mut Vec<(String, ReputationFlags)>)
    requires
        forall|i: int|
            0 <= i < l@.len() ==> cidr_v4_table(d.backend).contains_pair(
                (#[trigger] l@[i]).0@,
                l@[i].1@,
            ),
        forall|k: Seq<u8>|
            #[trigger] cidr_v4_table(d.backend).contains_key(k) ==> exists|i: int|
                0 <= i < l@.len() && l@[i].0@ == k && l@[i].1@ == cidr_v4_table(d.backend)[k],
        out_sound(old(out)@, *d),
    ensures
        out_sound(final(out)@, *d),
        forall|k: EntryKey, f: ReputationFlags|
            #[trigger] found_in(old(out)@, k, f) ==> found_in(final(out)@, k, f),
        forall|k: (u128, u8), f: ReputationFlags|
            #[trigger] d.cidrs_v4().contains_pair(k, f) ==> found_in(
                final(out)@,
                EntryKey::CidrV4(k.0, k.1),
                f,
            ),
{
    let mut i: usize = 0;
    while i < l.len()
        invariant
            i <= l@.len(),
            out_sound(out@, *d),
            forall|k: EntryKey, f: ReputationFlags|
                #[trigger] found_in(old(out)@, k, f) ==> found_in(out@, k, f),
            forall|k: (u128, u8), f: ReputationFlags| #![auto]
                d.cidrs_v4().contains_pair(k, f) && (exists|j: int|
                    0 <= j < i && (#[trigger] l@[j]).0@ == spec_cidr4_key(k.0, k.1)) ==> found_in(
                    out@,
                    EntryKey::CidrV4(k.0, k.1),
                    f,
                ),
        decreases l@.len() - i,
    {
        let ghost out0 = out@;
        let kb_s = l[i].0.as_slice();
        let vb_s = l[i].1.as_slice();
        let dec = cidr4_of_key(kb_s);
        let mut pushed: bool = false;
        let ghost mut gf = ReputationFlags {
            anonblock: false,
            proxy: false,
            vpn: false,
            cdn: false,
            public_wifi: false,
            rangeblock: false,
            school_block: false,
            tor: false,
            webhost: false,
        };
        match dec {
            Some((bits, prefix)) => {
                if prefix <= 32 && crate::bits::mask_prefix(bits, prefix, 32) == bits {
                    match ReputationFlags::decode(vb_s) {
                        Some(f) => {
                            proof {
                                assert(bits >> 32u128 == 0 ==> bits < 0x1_0000_0000)
                                    by (bit_vector);
                            }
                            let c = Cidr { addr: IpAddress::V4(bits as u32), prefix };
                            let s = crate::fmt::cidr_to_string(&c);
                            out.push((s, f));
                            pushed = true;
                            proof {
                                gf = f;
                                crate::flags::lemma_flags_roundtrip(f);
                                assert(cidr_v4_table(d.backend).contains_pair(
                                    (l@[i as int]).0@,
                                    (l@[i as int]).1@,
                                ));
                                assert(d.cidrs_v4().contains_pair((bits, prefix), f));
                                assert(d.entries().contains_pair(EntryKey::CidrV4(bits, prefix), f));
                                extend_sound_push(out0, out@, *d, EntryKey::CidrV4(bits, prefix));
                            }
                        },
                        None => {},
                    }
                }
            },
            None => {},
        }
        proof {
            extend_found(out0, out@, *d);
            assert forall|k: (u128, u8), f: ReputationFlags| #![auto]
                d.cidrs_v4().contains_pair(k, f) && (exists|j: int|
                    0 <= j < i + 1 && (#[trigger] l@[j]).0@ == spec_cidr4_key(k.0, k.1)) implies found_in(
                out@,
                EntryKey::CidrV4(k.0, k.1),
                f,
            ) by {
                if exists|j: int| 0 <= j < i && (#[trigger] l@[j]).0@ == spec_cidr4_key(k.0, k.1) {
                    assert(found_in(out0, EntryKey::CidrV4(k.0, k.1), f));
                } else if (l@[i as int]).0@ == spec_cidr4_key(k.0, k.1) {
                    assert(cidr_v4_table(d.backend).contains_pair((l@[i as int]).0@, (l@[i as int]).1@));
                    if dec is Some {
                        let (bits0, prefix0) = dec->0;
                        lemma_cidr4_key_injective(k.0, k.1, bits0, prefix0);
                    }
                    if pushed {
                        assert(out@[out@.len() - 1].1 == f);
                    } else {
                        assert(false);
                    }
                }
            }
        }
        i = i + 1;
    }
    proof {
        assert forall|k: (u128, u8), f: ReputationFlags|
            #[trigger] d.cidrs_v4().contains_pair(k, f) implies found_in(
            out@,
            EntryKey::CidrV4(k.0, k.1),
            f,
        ) by {
            assert(cidr_v4_table(d.backend).contains_key(spec_cidr4_key(k.0, k.1)));
        }
    }
}

/// Collect the `cidr_v6` partition into the output; keys
/// that are not canonical CIDR keys are skipped.
#[verifier::loop_isolation(false)]
#[verifier::rlimit(100)]
fn collect_cidr6(d: &Database, l: &Vec<(Vec<u8>, Vec<u8>)>, out: &mut Vec<(String, ReputationFlags)>)
    requires
        forall|i: int|
            0 <= i < l@.len() ==> cidr_v6_table(d.backend).contains_pair(
                (#[trigger] l@[i]).0@,
                l@[i].1@,
            ),
        forall|k: Seq<u8>|
            #[trigger] cidr_v6_table(d.backend).contains_key(k) ==> exists|i: int|
                0 <= i < l@.len() && l@[i].0@ == k && l@[i].1@ == cidr_v6_table(d.backend)[k],
        out_sound(old(out)@, *d),
    ensures
        out_sound(final(out)@, *d),
        forall|k: EntryKey, f: ReputationFlags|
            #[trigger] found_in(old(out)@, k, f) ==> found_in(final(out)@, k, f),
        forall|k: (u128, u8), f: ReputationFlags|
            #[trigger] d.cidrs_v6().contains_pair(k, f) ==> found_in(
                final(out)@,
                EntryKey::CidrV6(k.0, k.1),
                f,
            ),
{
    let mut i: usize = 0;
    while i < l.len()
        invariant
            i <= l@.len(),
            out_sound(out@, *d),
            forall|k: EntryKey, f: ReputationFlags|
                #[trigger] found_in(old(out)@, k, f) ==> found_in(out@, k, f),
            forall|k: (u128, u8), f: ReputationFlags| #![auto]
                d.cidrs_v6().contains_pair(k, f) && (exists|j: int|
                    0 <= j < i && (#[trigger] l@[j]).0@ == spec_cidr6_key(k.0, k.1)) ==> found_in(
                    out@,
                    EntryKey::CidrV6(k.0, k.1),
                    f,
                ),
        decreases l@.len() - i,
    {
        let ghost out0 = out@;
        let kb_s = l[i].0.as_slice();
        let vb_s = l[i].1.as_slice();
        let dec = cidr6_of_key(kb_s);
        let mut pushed: bool = false;
        let ghost mut gf = ReputationFlags {
            anonblock: false,
            proxy: false,
            vpn: false,
            cdn: false,
            public_wifi: false,
            rangeblock: false,
            school_block: false,
            tor: false,
            webhost: false,
        };
        match dec {
            Some((bits, prefix)) => {
                if prefix <= 128 && crate::bits::mask_prefix(bits, prefix, 128) == bits {
                    match ReputationFlags::decode(vb_s) {
                        Some(f) => {
                            let c = Cidr { addr: IpAddress::V6(bits), prefix };
                            let s = crate::fmt::cidr_to_string(&c);
                            out.push((s, f));
                            pushed = true;
                            proof {
                                gf = f;
                                crate::flags::lemma_flags_roundtrip(f);
                                assert(cidr_v6_table(d.backend).contains_pair(
                                    (l@[i as int]).0@,
                                    (l@[i as int]).1@,
                                ));
                                assert(d.cidrs_v6().contains_pair((bits, prefix), f));
                                assert(d.entries().contains_pair(EntryKey::CidrV6(bits, prefix), f));
                                extend_sound_push(out0, out@, *d, EntryKey::CidrV6(bits, prefix));
                            }
                        },
                        None => {},
                    }
                }
            },
            None => {},
        }
        proof {
            extend_found(out0, out@, *d);
            assert forall|k: (u128, u8), f: ReputationFlags| #![auto]
                d.cidrs_v6().contains_pair(k, f) && (exists|j: int|
                    0 <= j < i + 1 && (#[trigger] l@[j]).0@ == spec_cidr6_key(k.0, k.1)) implies found_in(
                out@,
                EntryKey::CidrV6(k.0, k.1),
                f,
            ) by {
                if exists|j: int| 0 <= j < i && (#[trigger] l@[j]).0@ == spec_cidr6_key(k.0, k.1) {
                    assert(found_in(out0, EntryKey::CidrV6(k.0, k.1), f));
                } else if (l@[i as int]).0@ == spec_cidr6_key(k.0, k.1) {
                    assert(cidr_v6_table(d.backend).contains_pair((l@[i as int]).0@, (l@[i as int]).1@));
                    if dec is Some {
                        let (bits0, prefix0) = dec->0;
                        lemma_cidr6_key_injective(k.0, k.1, bits0, prefix0);
                    }
                    if pushed {
                        assert(out@[out@.len() - 1].1 == f);
                    } else {
                        assert(false);
                    }
                }
            }
        }
        i = i + 1;
    }
    proof {
        assert forall|k: (u128, u8), f: ReputationFlags|
            #[trigger] d.cidrs_v6().contains_pair(k, f) implies found_in(
            out@,
            EntryKey::CidrV6(k.0, k.1),
            f,
        ) by {
            assert(cidr_v6_table(d.backend).contains_key(spec_cidr6_key(k.0, k.1)));
        }
    }
}

/// Appending one sound element keeps the output sound.
proof fn extend_sound_push(
    v0: Seq<(String, ReputationFlags)>,
    v1: Seq<(String, ReputationFlags)>,
    d: Database,
    k: EntryKey,
)
    requires
        v1.len() == v0.len() + 1,
        forall|i: int| 0 <= i < v0.len() ==> v1[i] == v0[i],
        out_sound(v0, d),
        d.entries().contains_pair(k, v1[v0.len() as int].1),
        v1[v0.len() as int].0@ == crate::fmt::ascii_chars_of(spec_fmt_entry_key(k)),
    ensures
        out_sound(v1, d),
{
    assert forall|idx: int| 0 <= idx < v1.len() implies #[trigger] elem_sound(v1, idx, d) by {
        if idx < v0.len() {
            assert(elem_sound(v0, idx, d));
            let k0 = choose|k2: EntryKey|
                d.entries().contains_pair(k2, v0[idx].1) && v0[idx].0@
                    == crate::fmt::ascii_chars_of(spec_fmt_entry_key(k2));
            assert(v1[idx] == v0[idx]);
            assert(d.entries().contains_pair(k0, v1[idx].1));
            assert(v1[idx].0@ == crate::fmt::ascii_chars_of(spec_fmt_entry_key(k0)));
        } else {
            assert(d.entries().contains_pair(k, v1[idx].1));
        }
    }
}

/// How one inserted entry key moves through the family views.
pub(crate) proof fn lemma_family_of_entries(d1: Database, d2: Database, s: Seq<u8>, f: ReputationFlags)
    requires
        match spec_entry_key(s) {
            Some(k) => d2.entries() == d1.entries().insert(k, f),
            None => d2.entries() == d1.entries(),
        },
    ensures
        match spec_entry_key(s) {
            Some(k) => match k {
                EntryKey::IpV4(_) | EntryKey::IpV6(_) => d2.cidrs_v4() == d1.cidrs_v4()
                    && d2.cidrs_v6() == d1.cidrs_v6(),
                EntryKey::CidrV4(b, p) => d2.cidrs_v4() == d1.cidrs_v4().insert((b, p), f)
                    && d2.cidrs_v6() == d1.cidrs_v6(),
                EntryKey::CidrV6(b, p) => d2.cidrs_v6() == d1.cidrs_v6().insert((b, p), f)
                    && d2.cidrs_v4() == d1.cidrs_v4(),
            },
            None => d2.cidrs_v4() == d1.cidrs_v4() && d2.cidrs_v6() == d1.cidrs_v6(),
        },
{
    match spec_entry_key(s) {
        Some(k) => {
            lemma_families_update(d1, d2, k, f);
        },
        None => {
            lemma_families_same(d1, d2);
        },
    }
}

/// Entries agreeing pointwise means each family view agrees.
pub(crate) proof fn lemma_families_same(d1: Database, d2: Database)
    requires
        d2.entries() == d1.entries(),
    ensures
        d2.cidrs_v4() == d1.cidrs_v4(),
        d2.cidrs_v6() == d1.cidrs_v6(),
        d2.exact_v4() == d1.exact_v4(),
        d2.exact_v6() == d1.exact_v6(),
{
    assert forall|k: (u128, u8), f: ReputationFlags| #[trigger] d2.cidrs_v4().contains_pair(k, f)
        implies d1.cidrs_v4().contains_pair(k, f) by {
        assert(d2.entries().contains_pair(EntryKey::CidrV4(k.0, k.1), f));
        assert(d1.entries().contains_pair(EntryKey::CidrV4(k.0, k.1), f));
    }
    assert forall|k: (u128, u8), f: ReputationFlags| #[trigger] d1.cidrs_v4().contains_pair(k, f)
        implies d2.cidrs_v4().contains_pair(k, f) by {
        assert(d1.entries().contains_pair(EntryKey::CidrV4(k.0, k.1), f));
        assert(d2.entries().contains_pair(EntryKey::CidrV4(k.0, k.1), f));
    }
    map_ext_pairs(d2.cidrs_v4(), d1.cidrs_v4());
    assert forall|k: (u128, u8), f: ReputationFlags| #[trigger] d2.cidrs_v6().contains_pair(k, f)
        implies d1.cidrs_v6().contains_pair(k, f) by {
        assert(d2.entries().contains_pair(EntryKey::CidrV6(k.0, k.1), f));
        assert(d1.entries().contains_pair(EntryKey::CidrV6(k.0, k.1), f));
    }
    assert forall|k: (u128, u8), f: ReputationFlags| #[trigger] d1.cidrs_v6().contains_pair(k, f)
        implies d2.cidrs_v6().contains_pair(k, f) by {
        assert(d1.entries().contains_pair(EntryKey::CidrV6(k.0, k.1), f));
        assert(d2.entries().contains_pair(EntryKey::CidrV6(k.0, k.1), f));
    }
    map_ext_pairs(d2.cidrs_v6(), d1.cidrs_v6());
    assert forall|a: u32, f: ReputationFlags| #[trigger] d2.exact_v4().contains_pair(a, f)
        implies d1.exact_v4().contains_pair(a, f) by {
        assert(d2.entries().contains_pair(EntryKey::IpV4(a), f));
        assert(d1.entries().contains_pair(EntryKey::IpV4(a), f));
    }
    assert forall|a: u32, f: ReputationFlags| #[trigger] d1.exact_v4().contains_pair(a, f)
        implies d2.exact_v4().contains_pair(a, f) by {
        assert(d1.entries().contains_pair(EntryKey::IpV4(a), f));
        assert(d2.entries().contains_pair(EntryKey::IpV4(a), f));
    }
    map_ext_pairs(d2.exact_v4(), d1.exact_v4());
    assert forall|a: u128, f: ReputationFlags| #[trigger] d2.exact_v6().contains_pair(a, f)
        implies d1.exact_v6().contains_pair(a, f) by {
        assert(d2.entries().contains_pair(EntryKey::IpV6(a), f));
        assert(d1.entries().contains_pair(EntryKey::IpV6(a), f));
    }
    assert forall|a: u128, f: ReputationFlags| #[trigger] d1.exact_v6().contains_pair(a, f)
        implies d2.exact_v6().contains_pair(a, f) by {
        assert(d1.entries().contains_pair(EntryKey::IpV6(a), f));
        assert(d2.entries().contains_pair(EntryKey::IpV6(a), f));
    }
    map_ext_pairs(d2.exact_v6(), d1.exact_v6());
}

/// Inserting one entry key updates exactly its family's view.
#[verifier::rlimit(100)]
pub(crate) proof fn lemma_families_update(d1: Database, d2: Database, k0: EntryKey, f: ReputationFlags)
    requires
        d2.entries() == d1.entries().insert(k0, f),
    ensures
        k0 is IpV4 || k0 is IpV6 ==> d2.cidrs_v4() == d1.cidrs_v4() && d2.cidrs_v6()
            == d1.cidrs_v6(),
        k0 matches EntryKey::CidrV4(b, p) ==> d2.cidrs_v4() == d1.cidrs_v4().insert((b, p), f)
            && d2.cidrs_v6() == d1.cidrs_v6(),
        k0 matches EntryKey::CidrV6(b, p) ==> d2.cidrs_v6() == d1.cidrs_v6().insert((b, p), f)
            && d2.cidrs_v4() == d1.cidrs_v4(),
{
    let t4 = match k0 {
        EntryKey::CidrV4(b, p) => d1.cidrs_v4().insert((b, p), f),
        _ => d1.cidrs_v4(),
    };
    assert forall|k: (u128, u8), g: ReputationFlags| #[trigger] d2.cidrs_v4().contains_pair(k, g)
        implies t4.contains_pair(k, g) by {
        assert(d2.entries().contains_pair(EntryKey::CidrV4(k.0, k.1), g));
        if k0 != EntryKey::CidrV4(k.0, k.1) {
            assert(d1.entries().contains_pair(EntryKey::CidrV4(k.0, k.1), g));
            assert(d1.cidrs_v4().contains_pair(k, g));
        }
    }
    assert forall|k: (u128, u8), g: ReputationFlags| #[trigger] t4.contains_pair(k, g)
        implies d2.cidrs_v4().contains_pair(k, g) by {
        if k0 == EntryKey::CidrV4(k.0, k.1) && g == f {
            assert(d2.entries().contains_pair(EntryKey::CidrV4(k.0, k.1), g));
        } else {
            assert(d1.cidrs_v4().contains_pair(k, g));
            assert(d1.entries().contains_pair(EntryKey::CidrV4(k.0, k.1), g));
            assert(d2.entries().contains_pair(EntryKey::CidrV4(k.0, k.1), g));
        }
    }
    map_ext_pairs(d2.cidrs_v4(), t4);
    let t6 = match k0 {
        EntryKey::CidrV6(b, p) => d1.cidrs_v6().insert((b, p), f),
        _ => d1.cidrs_v6(),
    };
    assert forall|k: (u128, u8), g: ReputationFlags| #[trigger] d2.cidrs_v6().contains_pair(k, g)
        implies t6.contains_pair(k, g) by {
        assert(d2.entries().contains_pair(EntryKey::CidrV6(k.0, k.1), g));
        if k0 != EntryKey::CidrV6(k.0, k.1) {
            assert(d1.entries().contains_pair(EntryKey::CidrV6(k.0, k.1), g));
            assert(d1.cidrs_v6().contains_pair(k, g));
        }
    }
    assert forall|k: (u128, u8), g: ReputationFlags| #[trigger] t6.contains_pair(k, g)
        implies d2.cidrs_v6().contains_pair(k, g) by {
        if k0 == EntryKey::CidrV6(k.0, k.1) && g == f {
            assert(d2.entries().contains_pair(EntryKey::CidrV6(k.0, k.1), g));
        } else {
            assert(d1.cidrs_v6().contains_pair(k, g));
            assert(d1.entries().contains_pair(EntryKey::CidrV6(k.0, k.1), g));
            assert(d2.entries().contains_pair(EntryKey::CidrV6(k.0, k.1), g));
        }
    }
    map_ext_pairs(d2.cidrs_v6(), t6);
}

/// Inserting an entry and then reading it back yields its flags:
/// after the store's view gains the entry's key, the exact-address
/// probe of that key answers with the inserted flags, or the CIDR
/// tables hold them under the canonical network key.
pub proof fn lemma_insert_lookup_roundtrip(
    d1: Database,
    d2: Database,
    s: Seq<u8>,
    f: ReputationFlags,
)
    requires
        spec_entry_key(s) is Some,
        d2.entries() == d1.entries().insert(spec_entry_key(s)->0, f),
    ensures
        match spec_entry_key(s)->0 {
            EntryKey::IpV4(a) => d2.spec_exact_lookup(IpAddress::V4(a)) == Some(f),
            EntryKey::IpV6(a) => d2.spec_exact_lookup(IpAddress::V6(a)) == Some(f),
            EntryKey::CidrV4(b, p) => d2.cidrs_v4().contains_pair((b, p), f),
            EntryKey::CidrV6(b, p) => d2.cidrs_v6().contains_pair((b, p), f),
        },
{
    let k = spec_entry_key(s)->0;
    assert(d2.entries().contains_pair(k, f));
    match k {
        EntryKey::IpV4(a) => {
            assert(d2.exact_v4().contains_pair(a, f));
        },
        EntryKey::IpV6(a) => {
            assert(d2.exact_v6().contains_pair(a, f));
        },
        EntryKey::CidrV4(b, p) => {
            assert(d2.cidrs_v4().contains_pair((b, p), f));
        },
        EntryKey::CidrV6(b, p) => {
            assert(d2.cidrs_v6().contains_pair((b, p), f));
        },
    }
}

/// An empty store view means every family view is empty.
pub proof fn lemma_entries_empty_families(d: Database)
    requires
        d.entries() == (Map::<EntryKey, ReputationFlags>::empty()),
    ensures
        d.cidrs_v4() == (Map::<(u128, u8), ReputationFlags>::empty()),
        d.cidrs_v6() == (Map::<(u128, u8), ReputationFlags>::empty()),
    {
    assert forall|k: (u128, u8)| !(#[trigger] d.cidrs_v4().dom().contains(k)) by {
        assert(!d.entries().dom().contains(EntryKey::CidrV4(k.0, k.1)));
    }
    assert(d.cidrs_v4() =~= Map::<(u128, u8), ReputationFlags>::empty());
    assert forall|k: (u128, u8)| !(#[trigger] d.cidrs_v6().dom().contains(k)) by {
        assert(!d.entries().dom().contains(EntryKey::CidrV6(k.0, k.1)));
    }
    assert(d.cidrs_v6() =~= Map::<(u128, u8), ReputationFlags>::empty());
}

/// Every emitted pair is a stored entry under its canonical text.
/// The element at `idx` reports some stored entry faithfully.
pub open spec fn elem_sound(v: Seq<(String, ReputationFlags)>, idx: int, d: Database) -> bool {
    exists|k: EntryKey|
        d.entries().contains_pair(k, v[idx].1) && v[idx].0@ == crate::fmt::ascii_chars_of(
            spec_fmt_entry_key(k),
        )
}

pub open spec fn out_sound(v: Seq<(String, ReputationFlags)>, d: Database) -> bool {
    forall|idx: int| 0 <= idx < v.len() ==> #[trigger] elem_sound(v, idx, d)
}

/// The entry appears in the output under its canonical text.
pub open spec fn found_in(v: Seq<(String, ReputationFlags)>, k: EntryKey, f: ReputationFlags) -> bool {
    exists|idx: int|
        0 <= idx < v.len() && (#[trigger] v[idx]).1 == f && v[idx].0@ == crate::fmt::ascii_chars_of(
            spec_fmt_entry_key(k),
        )
}

/// Growing the output by one element keeps earlier findings.
proof fn extend_found(v0: Seq<(String, ReputationFlags)>, v1: Seq<(String, ReputationFlags)>, d: Database)
    requires
        v0.len() <= v1.len(),
        forall|i: int| 0 <= i < v0.len() ==> v1[i] == v0[i],
    ensures
        forall|k: EntryKey, f: ReputationFlags|
            #[trigger] found_in(v0, k, f) ==> found_in(v1, k, f),
{
    assert forall|k: EntryKey, f: ReputationFlags| #[trigger] found_in(v0, k, f) implies found_in(
        v1,
        k,
        f,
    ) by {
        let idx = choose|idx: int|
            0 <= idx < v0.len() && (#[trigger] v0[idx]).1 == f && v0[idx].0@
                == crate::fmt::ascii_chars_of(spec_fmt_entry_key(k));
        assert(v1[idx] == v0[idx]);
    }
}

} // verus!
