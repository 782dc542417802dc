//! The nine-boolean reputation descriptor attached to every entry, its
//! merge operation (pointwise disjunction), and the compact two-byte
//! encoding under which flag sets are held in the keyed store.

use vstd::prelude::*;

verus! {

/// Nine independent reputation flags.  Merging is pointwise OR; the
/// all-false value is the identity.
#[derive(Debug, Clone, Copy, PartialEq, Eq, Structural)]
pub struct ReputationFlags {
    pub anonblock: bool,
    pub proxy: bool,
    pub vpn: bool,
    pub cdn: bool,
    pub public_wifi: bool,
    pub rangeblock: bool,
    pub school_block: bool,
    pub tor: bool,
    pub webhost: bool,
}

/// Pointwise disjunction of two flag sets.
pub open spec fn spec_merge(a: ReputationFlags, b: ReputationFlags) -> ReputationFlags {
    ReputationFlags {
        anonblock: a.anonblock || b.anonblock,
        proxy: a.proxy || b.proxy,
        vpn: a.vpn || b.vpn,
        cdn: a.cdn || b.cdn,
        public_wifi: a.public_wifi || b.public_wifi,
        rangeblock: a.rangeblock || b.rangeblock,
        school_block: a.school_block || b.school_block,
        tor: a.tor || b.tor,
        webhost: a.webhost || b.webhost,
    }
}

/// The all-false flag set, the identity of `spec_merge`.
pub open spec fn spec_empty_flags() -> ReputationFlags {
    ReputationFlags {
        anonblock: false,
        proxy: false,
        vpn: false,
        cdn: false,
        public_wifi: false,
        rangeblock: false,
        school_block: false,
        tor: false,
        webhost: false,
    }
}

impl Default for ReputationFlags {
    /// The all-false flag set.
    fn default() -> (r: ReputationFlags)
        ensures
            r == spec_empty_flags(),
    {
        ReputationFlags {
            anonblock: false,
            proxy: false,
            vpn: false,
            cdn: false,
            public_wifi: false,
            rangeblock: false,
            school_block: false,
            tor: false,
            webhost: false,
        }
    }
}

impl ReputationFlags {
    /// Merge two flag sets: each flag of the result is the disjunction
    /// of the corresponding flags of the operands.
    pub fn merge(&self, other: &ReputationFlags) -> (r: ReputationFlags)
        ensures
            r == spec_merge(*self, *other),
    {
        ReputationFlags {
            anonblock: self.anonblock || other.anonblock,
            proxy: self.proxy || other.proxy,
            vpn: self.vpn || other.vpn,
            cdn: self.cdn || other.cdn,
            public_wifi: self.public_wifi || other.public_wifi,
            rangeblock: self.rangeblock || other.rangeblock,
            school_block: self.school_block || other.school_block,
            tor: self.tor || other.tor,
            webhost: self.webhost || other.webhost,
        }
    }
}

/// Merging a flag set with itself gives it back.
pub proof fn lemma_merge_idempotent(a: ReputationFlags)
    ensures
        spec_merge(a, a) == a,
{
}

/// Merging is commutative.
pub proof fn lemma_merge_commutative(a: ReputationFlags, b: ReputationFlags)
    ensures
        spec_merge(a, b) == spec_merge(b, a),
{
}

/// Merging is associative.
pub proof fn lemma_merge_associative(a: ReputationFlags, b: ReputationFlags, c: ReputationFlags)
    ensures
        spec_merge(spec_merge(a, b), c) == spec_merge(a, spec_merge(b, c)),
{
}

/// The all-false flag set is the identity of merging, on both sides.
pub proof fn lemma_merge_identity(a: ReputationFlags)
    ensures
        spec_merge(a, spec_empty_flags()) == a,
        spec_merge(spec_empty_flags(), a) == a,
{
}

/// The two-byte store encoding of a flag set: the first byte carries
/// the first eight flags as its binary digits from least significant
/// upward, the second byte carries the ninth flag.
pub open spec fn spec_encode_flags(f: ReputationFlags) -> Seq<u8> {
    seq![
        ((if f.anonblock { 1u8 } else { 0u8 }) + (if f.proxy { 2u8 } else { 0u8 })
            + (if f.vpn { 4u8 } else { 0u8 }) + (if f.cdn { 8u8 } else { 0u8 })
            + (if f.public_wifi { 16u8 } else { 0u8 }) + (if f.rangeblock { 32u8 } else { 0u8 })
            + (if f.school_block { 64u8 } else { 0u8 }) + (if f.tor { 128u8 } else {
            0u8
        })) as u8,
        if f.webhost { 1u8 } else { 0u8 },
    ]
}

/// A byte string is a well-formed flag encoding when it has exactly the
/// shape `spec_encode_flags` produces.
pub open spec fn spec_flags_decodable(b: Seq<u8>) -> bool {
    exists|f: ReputationFlags| spec_encode_flags(f) == b
}

/// The flag set a well-formed encoding denotes.
pub open spec fn spec_decode_flags(b: Seq<u8>) -> ReputationFlags {
    choose|f: ReputationFlags| spec_encode_flags(f) == b
}

impl ReputationFlags {
    /// Encode this flag set into its two-byte store representation.
    pub fn encode(&self) -> (r: Vec<u8>)
        ensures
            r@ == spec_encode_flags(*self),
    {
        let b0: u8 = (if self.anonblock { 1u8 } else { 0u8 }) + (if self.proxy {
            2u8
        } else {
            0u8
        }) + (if self.vpn { 4u8 } else { 0u8 }) + (if self.cdn { 8u8 } else { 0u8 }) + (if self
            .public_wifi {
            16u8
        } else {
            0u8
        }) + (if self.rangeblock { 32u8 } else { 0u8 }) + (if self.school_block {
            64u8
        } else {
            0u8
        }) + (if self.tor { 128u8 } else { 0u8 });
        let b1: u8 = if self.webhost { 1u8 } else { 0u8 };
        let mut r: Vec<u8> = Vec::new();
        r.push(b0);
        r.push(b1);
        assert(r@ =~= spec_encode_flags(*self));
        r
    }

    /// Decode a two-byte store representation.  Returns `None` on any
    /// byte string that `encode` cannot produce.
    pub fn decode(bytes: &[u8]) -> (r: Option<ReputationFlags>)
        ensures
            match r {
                Some(f) => spec_encode_flags(f) == bytes@,
                None => !spec_flags_decodable(bytes@),
            },
    {
        if bytes.len() != 2 {
            assert(forall|f: ReputationFlags| spec_encode_flags(f).len() == 2);
            return None;
        }
        let b0 = bytes[0];
        let b1 = bytes[1];
        if b1 > 1 {
            assert forall|f: ReputationFlags| spec_encode_flags(f) != bytes@ by {
                assert(spec_encode_flags(f)[1] <= 1);
            }
            return None;
        }
        let mut rest = b0;
        let tor = rest >= 128;
        if tor {
            rest = rest - 128;
        }
        let school_block = rest >= 64;
        if school_block {
            rest = rest - 64;
        }
        let rangeblock = rest >= 32;
        if rangeblock {
            rest = rest - 32;
        }
        let public_wifi = rest >= 16;
        if public_wifi {
            rest = rest - 16;
        }
        let cdn = rest >= 8;
        if cdn {
            rest = rest - 8;
        }
        let vpn = rest >= 4;
        if vpn {
            rest = rest - 4;
        }
        let proxy = rest >= 2;
        if proxy {
            rest = rest - 2;
        }
        let anonblock = rest >= 1;
        let f = ReputationFlags {
            anonblock,
            proxy,
            vpn,
            cdn,
            public_wifi,
            rangeblock,
            school_block,
            tor,
            webhost: b1 == 1,
        };
        assert(spec_encode_flags(f) =~= bytes@);
        Some(f)
    }
}

/// Decoding inverts encoding, and an encoding decodes only to the flag
/// set it came from.
pub proof fn lemma_flags_roundtrip(f: ReputationFlags)
    ensures
        spec_flags_decodable(spec_encode_flags(f)),
        spec_decode_flags(spec_encode_flags(f)) == f,
{
    assert(spec_encode_flags(f) == spec_encode_flags(f));
    let g = spec_decode_flags(spec_encode_flags(f));
    assert(spec_encode_flags(g) == spec_encode_flags(f));
    lemma_encode_flags_injective(f, g);
}

/// Two flag sets with the same encoding are the same.
pub proof fn lemma_encode_flags_injective(f: ReputationFlags, g: ReputationFlags)
    requires
        spec_encode_flags(f) == spec_encode_flags(g),
    ensures
        f == g,
{
    assert(spec_encode_flags(f)[0] == spec_encode_flags(g)[0]);
    assert(spec_encode_flags(f)[1] == spec_encode_flags(g)[1]);
}

} // verus!
