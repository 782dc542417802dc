//! Snapshot fingerprinting: the SHA-256 digest of the snapshot text,
//! written as lowercase hexadecimal.  Fetching and the atomic file
//! writes around it are the calling program's business; the library
//! only computes and checks the fingerprint.

use sha2::Digest;
use vstd::prelude::*;
use vstd::utf8::encode_utf8;

use crate::fmt::{ascii_chars_of, hex_chr, string_from_ascii};

verus! {

/// A fetch failure: the request itself, or the file system around it.
#[derive(Debug)]
pub enum DownloadError {
    Request(String),
    Io(String),
}

/// A fetched snapshot: its text and its hex fingerprint.
#[derive(Debug)]
pub struct DownloadResult {
    pub content: String,
    pub hash: String,
}

/// The SHA-256 digest of a byte string.  The digest depends on the
/// bytes alone; its value is not modelled.
pub uninterp spec fn sha256_of(b: Seq<u8>) -> Seq<u8>;

/// Relies on `sha2::Sha256::digest`: the 32-byte digest of the input,
/// a function of the input bytes alone.
#[verifier::external_body]
fn sha256(b: &[u8]) -> (r: Vec<u8>)
    ensures
        r@ == sha256_of(b@),
        r@.len() == 32,
{
    sha2::Sha256::digest(b).to_vec()
}

/// The lowercase hexadecimal digits of a byte string, two per byte.
pub open spec fn hex_of(b: Seq<u8>) -> Seq<u8>
    decreases b.len(),
{
    if b.len() == 0 {
        Seq::empty()
    } else {
        hex_of(b.drop_last()) + seq![
            hex_chr(b.last() as int / 16),
            hex_chr(b.last() as int % 16),
        ]
    }
}

/// Write a byte string in lowercase hexadecimal.
fn hex_encode(b: &Vec<u8>) -> (r: Vec<u8>)
    ensures
        r@ == hex_of(b@),
        r@.len() == 2 * b@.len(),
        forall|i: int| 0 <= i < r@.len() ==> #[trigger] r@[i] < 128,
{
    let mut r: Vec<u8> = Vec::new();
    let mut i: usize = 0;
    proof {
        assert(b@.take(0) =~= Seq::<u8>::empty());
    }
    while i < b.len()
        invariant
            i <= b@.len(),
            r@ == hex_of(b@.take(i as int)),
            r@.len() == 2 * i,
            forall|j: int| 0 <= j < r@.len() ==> #[trigger] r@[j] < 128,
        decreases b@.len() - i,
    {
        let x = b[i];
        let hi: u8 = x / 16;
        let lo: u8 = x % 16;
        let hc: u8 = if hi < 10 {
            48 + hi
        } else {
            87 + hi
        };
        let lc: u8 = if lo < 10 {
            48 + lo
        } else {
            87 + lo
        };
        r.push(hc);
        r.push(lc);
        proof {
            let t = b@.take(i as int + 1);
            assert(t.drop_last() =~= b@.take(i as int));
            assert(t.last() == b@[i as int]);
            assert(r@ =~= hex_of(b@.take(i as int)) + seq![
                hex_chr(b@[i as int] as int / 16),
                hex_chr(b@[i as int] as int % 16),
            ]);
        }
        i = i + 1;
    }
    proof {
        assert(b@.take(b@.len() as int) =~= b@);
    }
    r
}

/// The lowercase hex SHA-256 fingerprint of a snapshot text.
pub fn compute_hash(content: &str) -> (r: String)
    ensures
        r@ == ascii_chars_of(hex_of(sha256_of(encode_utf8(content@)))),
        r@.len() == 64,
        vstd::utf8::is_ascii_chars(r@),
{
    let digest = sha256(content.as_bytes());
    let hex = hex_encode(&digest);
    string_from_ascii(hex)
}

} // verus!
