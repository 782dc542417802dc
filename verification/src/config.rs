//! Service configuration and the paths derived from the data
//! directory.  Reading the environment happens outside the library;
//! the value parsers here say exactly when a value is taken and when
//! the default stands in.

use vstd::prelude::*;
use vstd::string::StringSliceAdditionalSpecFns;

use crate::text::{dec_run_end, dec_value};



verus! {

/// Ten to the `n`.
pub open spec fn p10(n: int) -> int
    decreases n,
{
    if n <= 0 {
        1
    } else {
        10 * p10(n - 1)
    }
}

proof fn lemma_p10_small()
    ensures
        p10(0) == 1 && p10(1) == 10 && p10(2) == 100 && p10(3) == 1000 && p10(4) == 10000 && p10(5)
            == 100000,
{
    assert(p10(0) == 1);
    assert(p10(1) == 10);
    assert(p10(2) == 100);
    assert(p10(3) == 1000);
    assert(p10(4) == 10000);
    assert(p10(5) == 100000);
}

/// The value of `j - i` digits stays below ten to their count.
proof fn lemma_dec_value_p10(s: Seq<u8>, i: int, j: int)
    requires
        0 <= i <= j <= s.len(),
        forall|k: int| i <= k < j ==> crate::text::is_dec_digit(#[trigger] s[k]),
    ensures
        0 <= dec_value(s, i, j) < p10(j - i),
    decreases j - i,
{
    if i < j {
        lemma_dec_value_p10(s, i, j - 1);
    }
}

pub const REST_PORT: u16 = 7891;

pub const GRPC_PORT: u16 = 7892;

pub const SYNC_HOUR_UTC: u8 = 2;

/// Where the service keeps its data and listens, and when it syncs.
#[derive(Debug, Clone)]
pub struct Config {
    pub data_dir: String,
    pub rest_port: u16,
    pub grpc_port: u16,
    pub sync_hour_utc: u8,
    pub csv_url: String,
}

impl Config {
    /// The store's directory under the data directory.
    pub fn db_path(&self) -> (r: String)
        ensures
            r@ == self.data_dir@ + "/lmdb"@,
    {
        let mut p = self.data_dir.clone();
        p.append("/lmdb");
        p
    }

    /// The cached snapshot beside the store.
    pub fn csv_path(&self) -> (r: String)
        ensures
            r@ == self.data_dir@ + "/proxy_blocks.csv"@,
    {
        let mut p = self.data_dir.clone();
        p.append("/proxy_blocks.csv");
        p
    }

    /// The cached snapshot's fingerprint file.
    pub fn csv_hash_path(&self) -> (r: String)
        ensures
            r@ == self.data_dir@ + "/proxy_blocks.csv.sha256"@,
    {
        let mut p = self.data_dir.clone();
        p.append("/proxy_blocks.csv.sha256");
        p
    }
}

/// A port value is taken when the text is one to five decimal digits
/// denoting a number from 1 to 65535; anything else falls back.
pub open spec fn spec_port_value(s: Seq<u8>, default: u16) -> int {
    let e = dec_run_end(s, 0);
    if 0 < s.len() <= 5 && e == s.len() && 1 <= dec_value(s, 0, e) <= 65535 {
        dec_value(s, 0, e)
    } else {
        default as int
    }
}

/// Parse a port setting, falling back to the default on anything but
/// a port number; port zero falls back too.
#[verifier::loop_isolation(false)]
pub fn parse_port(s: &str, default: u16) -> (r: u16)
    ensures
        r as int == spec_port_value(s.spec_bytes(), default),
{
    let b = s.as_bytes();
    let n = b.len();
    if n == 0 || n > 5 {
        return default;
    }
    let mut i: usize = 0;
    let mut acc: u32 = 0;
    while i < n
        invariant
            i <= n,
            n == b@.len(),
            n <= 5,
            forall|j: int| 0 <= j < i ==> crate::text::is_dec_digit(#[trigger] b@[j]),
            acc as int == dec_value(b@, 0, i as int),
            (acc as int) < p10(i as int),
            acc < 100000,
        decreases n - i,
    {
        let c = b[i];
        if c < 48 || c > 57 {
            proof {
                crate::text::lemma_dec_run_stops(b@, 0, i as int);
                assert(dec_run_end(b@, 0) == i);
                assert(b@ == s.spec_bytes());
                assert(i < n);
                assert(dec_run_end(s.spec_bytes(), 0) != s.spec_bytes().len());
            }
            return default;
        }
        proof {
            lemma_p10_small();
            lemma_dec_value_p10(b@, 0, i as int + 1);
        }
        acc = acc * 10 + ((c - 48) as u32);
        i = i + 1;
    }
    proof {
        lemma_p10_small();
        crate::text::lemma_dec_run_stops(b@, 0, n as int);
        assert(dec_run_end(b@, 0) == n);
    }
    if acc >= 1 && acc <= 65535 {
        acc as u16
    } else {
        default
    }
}

/// A sync hour is taken when the text denotes a number up to 23.
pub open spec fn spec_hour_value(s: Seq<u8>, default: u8) -> int {
    let e = dec_run_end(s, 0);
    if 0 < s.len() <= 2 && e == s.len() && dec_value(s, 0, e) <= 23 {
        dec_value(s, 0, e)
    } else {
        default as int
    }
}

/// Parse a sync-hour setting, falling back on anything but 0 to 23.
#[verifier::loop_isolation(false)]
pub fn parse_sync_hour(s: &str, default: u8) -> (r: u8)
    ensures
        r as int == spec_hour_value(s.spec_bytes(), default),
{
    let b = s.as_bytes();
    let n = b.len();
    if n == 0 || n > 2 {
        return default;
    }
    let mut i: usize = 0;
    let mut acc: u32 = 0;
    while i < n
        invariant
            i <= n,
            n == b@.len(),
            n <= 2,
            forall|j: int| 0 <= j < i ==> crate::text::is_dec_digit(#[trigger] b@[j]),
            acc as int == dec_value(b@, 0, i as int),
            (acc as int) < p10(i as int),
            acc < 100,
        decreases n - i,
    {
        let c = b[i];
        if c < 48 || c > 57 {
            proof {
                crate::text::lemma_dec_run_stops(b@, 0, i as int);
                assert(dec_run_end(b@, 0) == i);
                assert(b@ == s.spec_bytes());
                assert(i < n);
                assert(dec_run_end(s.spec_bytes(), 0) != s.spec_bytes().len());
            }
            return default;
        }
        proof {
            lemma_p10_small();
            lemma_dec_value_p10(b@, 0, i as int + 1);
        }
        acc = acc * 10 + ((c - 48) as u32);
        i = i + 1;
    }
    proof {
        lemma_p10_small();
        crate::text::lemma_dec_run_stops(b@, 0, n as int);
        assert(dec_run_end(b@, 0) == n);
    }
    if acc <= 23 {
        acc as u8
    } else {
        default
    }
}

} // verus!
