//! The store's singleton metadata record and its length-prefixed
//! binary encoding: a presence byte and eight little-endian bytes for
//! the last sync time, a presence byte, eight length bytes and the
//! text for the snapshot hash, then eight bytes for the record count.

use vstd::bytes::{lemma_auto_spec_u64_to_from_le_bytes, spec_u64_to_le_bytes, u64_from_le_bytes,
    u64_to_le_bytes};
use vstd::prelude::*;
use vstd::utf8::encode_utf8;

use crate::fmt::{ascii_chars_of, string_from_ascii};

verus! {

/// Sync bookkeeping: when the data was last imported, from which
/// snapshot, and how many records it held.
#[derive(Debug, Clone)]
pub struct Metadata {
    pub last_sync: Option<i64>,
    pub csv_hash: Option<String>,
    pub record_count: u64,
}

impl Default for Metadata {
    /// The state of a store that has never been synced.
    fn default() -> (r: Metadata)
        ensures
            r.last_sync is None,
            r.csv_hash is None,
            r.record_count == 0,
    {
        Metadata { last_sync: None, csv_hash: None, record_count: 0 }
    }
}

/// The hash text is plain ASCII, as every hex digest is.
pub open spec fn spec_metadata_ascii(m: Metadata) -> bool {
    match m.csv_hash {
        Some(h) => vstd::utf8::is_ascii_chars(h@),
        None => true,
    }
}

/// The byte encoding of a metadata record.
pub open spec fn spec_encode_metadata(m: Metadata) -> Seq<u8> {
    (match m.last_sync {
        Some(t) => seq![1u8] + spec_u64_to_le_bytes(t as u64),
        None => seq![0u8],
    }) + (match m.csv_hash {
        Some(h) => seq![1u8] + spec_u64_to_le_bytes(encode_utf8(h@).len() as u64) + encode_utf8(
            h@,
        ),
        None => seq![0u8],
    }) + spec_u64_to_le_bytes(m.record_count)
}

/// Wrapping an `i64` through `u64` and back is the identity.
proof fn lemma_i64_u64_roundtrip(t: i64)
    by (bit_vector)
    ensures
        (t as u64) as i64 == t,
{
}

/// Two records with equal encodings agree on every component, the
/// hash compared by its characters.
pub proof fn lemma_metadata_encode_injective(m1: Metadata, m2: Metadata)
    requires
        spec_encode_metadata(m1) == spec_encode_metadata(m2),
    ensures
        m1.last_sync == m2.last_sync,
        m1.record_count == m2.record_count,
        m1.csv_hash is Some <==> m2.csv_hash is Some,
        m1.csv_hash matches Some(h1) ==> m2.csv_hash matches Some(h2) && h1@ == h2@,
{
    lemma_auto_spec_u64_to_from_le_bytes();
    let e1 = spec_encode_metadata(m1);
    let e2 = spec_encode_metadata(m2);
    let p1 = match m1.last_sync {
        Some(t) => seq![1u8] + spec_u64_to_le_bytes(t as u64),
        None => seq![0u8],
    };
    let p2 = match m2.last_sync {
        Some(t) => seq![1u8] + spec_u64_to_le_bytes(t as u64),
        None => seq![0u8],
    };
    assert(e1[0] == p1[0] && e2[0] == p2[0]);
    assert(p1[0] == p2[0]);
    if m1.last_sync is Some && m2.last_sync is Some {
        let t1 = m1.last_sync->0;
        let t2 = m2.last_sync->0;
        assert forall|i: int| 0 <= i < 8 implies #[trigger] spec_u64_to_le_bytes(t1 as u64)[i]
            == spec_u64_to_le_bytes(t2 as u64)[i] by {
            assert(e1[1 + i] == p1[1 + i]);
            assert(e2[1 + i] == p2[1 + i]);
        }
        assert(spec_u64_to_le_bytes(t1 as u64) =~= spec_u64_to_le_bytes(t2 as u64));
        assert(t1 as u64 == t2 as u64);
        lemma_i64_u64_roundtrip(t1);
        lemma_i64_u64_roundtrip(t2);
    }
    let a1 = p1.len() as int;
    let a2 = p2.len() as int;
    assert(a1 == a2);
    let q1 = match m1.csv_hash {
        Some(h) => seq![1u8] + spec_u64_to_le_bytes(encode_utf8(h@).len() as u64) + encode_utf8(
            h@,
        ),
        None => seq![0u8],
    };
    let q2 = match m2.csv_hash {
        Some(h) => seq![1u8] + spec_u64_to_le_bytes(encode_utf8(h@).len() as u64) + encode_utf8(
            h@,
        ),
        None => seq![0u8],
    };
    assert(e1[a1] == q1[0] && e2[a1] == q2[0]);
    assert(q1[0] == q2[0]);
    if m1.csv_hash is Some && m2.csv_hash is Some {
        let h1 = m1.csv_hash->0;
        let h2 = m2.csv_hash->0;
        let b1 = encode_utf8(h1@);
        let b2 = encode_utf8(h2@);
        assert forall|i: int| 0 <= i < 8 implies #[trigger] spec_u64_to_le_bytes(b1.len() as u64)[i]
            == spec_u64_to_le_bytes(b2.len() as u64)[i] by {
            assert(e1[a1 + 1 + i] == q1[1 + i]);
            assert(e2[a1 + 1 + i] == q2[1 + i]);
        }
        assert(spec_u64_to_le_bytes(b1.len() as u64) =~= spec_u64_to_le_bytes(b2.len() as u64));
        assert(e1.len() == e2.len());
        assert(e1.len() == a1 + 9 + b1.len() + 8);
        assert(e2.len() == a1 + 9 + b2.len() + 8);
        assert(b1.len() == b2.len());
        assert forall|i: int| 0 <= i < b1.len() implies #[trigger] b1[i] == b2[i] by {
            assert(e1[a1 + 9 + i] == q1[9 + i]);
            assert(e2[a1 + 9 + i] == q2[9 + i]);
        }
        assert(b1 =~= b2);
        vstd::utf8::encode_utf8_decode_utf8(h1@);
        vstd::utf8::encode_utf8_decode_utf8(h2@);
        assert(h1@ == h2@);
    }
    let c1 = spec_u64_to_le_bytes(m1.record_count);
    let c2 = spec_u64_to_le_bytes(m2.record_count);
    assert(e1.len() == e2.len());
    assert forall|i: int| 0 <= i < 8 implies #[trigger] c1[i] == c2[i] by {
        assert(e1[e1.len() - 8 + i] == c1[i]);
        assert(e2[e2.len() - 8 + i] == c2[i]);
    }
    assert(c1 =~= c2);
}

/// Encode a metadata record for the store.
pub fn encode_metadata(m: &Metadata) -> (r: Vec<u8>)
    ensures
        r@ == spec_encode_metadata(*m),
{
    let mut r: Vec<u8> = Vec::new();
    match &m.last_sync {
        Some(t) => {
            r.push(1u8);
            let mut b = u64_to_le_bytes(#[verifier::truncate] (*t as u64));
            r.append(&mut b);
        },
        None => {
            r.push(0u8);
        },
    }
    match &m.csv_hash {
        Some(h) => {
            r.push(1u8);
            let hb = h.as_str().as_bytes_vec();
            let mut lb = u64_to_le_bytes(hb.len() as u64);
            r.append(&mut lb);
            let mut hb2 = hb;
            r.append(&mut hb2);
        },
        None => {
            r.push(0u8);
        },
    }
    let mut cb = u64_to_le_bytes(m.record_count);
    r.append(&mut cb);
    assert(r@ =~= spec_encode_metadata(*m));
    r
}

/// Decode a metadata record.  A malformed byte string, including one
/// whose hash text is not ASCII, decodes to nothing.
pub fn decode_metadata(b: &[u8]) -> (r: Option<Metadata>)
    ensures
        r matches Some(m) ==> spec_encode_metadata(m) == b@ && spec_metadata_ascii(m),
{
    let n = b.len();
    if n < 1 {
        return None;
    }
    let tag_ls = b[0];
    let mut pos: usize = 1;
    let last_sync: Option<i64> = if tag_ls == 1 {
        if n < pos + 8 {
            return None;
        }
        let v = u64_from_le_bytes(vstd::slice::slice_subrange(b, pos, pos + 8));
        pos = pos + 8;
        proof {
            assert((v as i64) as u64 == v) by (bit_vector);
        }
        Some(#[verifier::truncate] (v as i64))
    } else if tag_ls == 0 {
        None
    } else {
        return None;
    };
    if n < pos + 1 {
        return None;
    }
    let tag_h = b[pos];
    pos = pos + 1;
    let csv_hash: Option<String> = if tag_h == 1 {
        if n < pos + 8 {
            return None;
        }
        let hl64 = u64_from_le_bytes(vstd::slice::slice_subrange(b, pos, pos + 8));
        pos = pos + 8;
        if hl64 > (usize::MAX as u64) {
            return None;
        }
        let hl = hl64 as usize;
        if n - pos < hl {
            return None;
        }
        let hb = vstd::slice::slice_to_vec(vstd::slice::slice_subrange(b, pos, pos + hl));
        let mut i: usize = 0;
        while i < hb.len()
            invariant
                i <= hb@.len(),
                forall|j: int| 0 <= j < i ==> hb@[j] < 128,
            decreases hb@.len() - i,
        {
            if hb[i] >= 128 {
                return None;
            }
            i = i + 1;
        }
        pos = pos + hl;
        Some(string_from_ascii(hb))
    } else if tag_h == 0 {
        None
    } else {
        return None;
    };
    if n - pos != 8 {
        return None;
    }
    let record_count = u64_from_le_bytes(vstd::slice::slice_subrange(b, pos, pos + 8));
    let m = Metadata { last_sync, csv_hash, record_count };
    proof {
        vstd::bytes::lemma_auto_spec_u64_to_from_le_bytes();
        assert(spec_encode_metadata(m) =~= b@);
    }
    Some(m)
}

} // verus!
