//! Service metrics as a plain registry of counters and gauges.  The
//! program owns one registry and exposes it however it likes; every
//! mutation here says exactly what it does to the counts.

use vstd::prelude::*;

verus! {

/// The service's counters and gauges.
#[derive(Debug, Clone, Copy, PartialEq, Eq, Structural)]
pub struct Metrics {
    pub record_count: i64,
    pub last_sync_timestamp: i64,
    pub sync_success_total: u64,
    pub sync_failures_total: u64,
    pub lookup_hits_total: u64,
    pub grpc_requests_total: u64,
    pub rest_requests_total: u64,
    pub healthy: bool,
}

impl Default for Metrics {
    /// Everything at zero, health assumed until told otherwise.
    fn default() -> (r: Metrics)
        ensures
            r.record_count == 0 && r.last_sync_timestamp == 0 && r.sync_success_total == 0
                && r.sync_failures_total == 0 && r.lookup_hits_total == 0
                && r.grpc_requests_total == 0 && r.rest_requests_total == 0 && r.healthy,
    {
        Metrics {
            record_count: 0,
            last_sync_timestamp: 0,
            sync_success_total: 0,
            sync_failures_total: 0,
            lookup_hits_total: 0,
            grpc_requests_total: 0,
            rest_requests_total: 0,
            healthy: true,
        }
    }
}

/// A counter grows by one until it saturates.
pub open spec fn spec_bump(c: u64) -> u64 {
    if c < 0xffff_ffff_ffff_ffff {
        (c + 1) as u64
    } else {
        c
    }
}

pub fn set_record_count(m: &mut Metrics, count: i64)
    ensures
        *final(m) == (Metrics { record_count: count, ..*old(m) }),
{
    m.record_count = count;
}

pub fn set_last_sync_timestamp(m: &mut Metrics, timestamp: i64)
    ensures
        *final(m) == (Metrics { last_sync_timestamp: timestamp, ..*old(m) }),
{
    m.last_sync_timestamp = timestamp;
}

pub fn inc_sync_success(m: &mut Metrics)
    ensures
        *final(m) == (Metrics { sync_success_total: spec_bump(old(m).sync_success_total), ..*old(m) }),
{
    if m.sync_success_total < 0xffff_ffff_ffff_ffff {
        m.sync_success_total = m.sync_success_total + 1;
    }
}

pub fn inc_sync_failures(m: &mut Metrics)
    ensures
        *final(m) == (Metrics { sync_failures_total: spec_bump(old(m).sync_failures_total), ..*old(m) }),
{
    if m.sync_failures_total < 0xffff_ffff_ffff_ffff {
        m.sync_failures_total = m.sync_failures_total + 1;
    }
}

pub fn set_health_status(m: &mut Metrics, healthy: bool)
    ensures
        *final(m) == (Metrics { healthy: healthy, ..*old(m) }),
{
    m.healthy = healthy;
}

pub fn inc_lookup_hits(m: &mut Metrics)
    ensures
        *final(m) == (Metrics { lookup_hits_total: spec_bump(old(m).lookup_hits_total), ..*old(m) }),
{
    if m.lookup_hits_total < 0xffff_ffff_ffff_ffff {
        m.lookup_hits_total = m.lookup_hits_total + 1;
    }
}

pub fn inc_grpc_requests(m: &mut Metrics)
    ensures
        *final(m) == (Metrics { grpc_requests_total: spec_bump(old(m).grpc_requests_total), ..*old(m) }),
{
    if m.grpc_requests_total < 0xffff_ffff_ffff_ffff {
        m.grpc_requests_total = m.grpc_requests_total + 1;
    }
}

pub fn inc_rest_requests(m: &mut Metrics)
    ensures
        *final(m) == (Metrics { rest_requests_total: spec_bump(old(m).rest_requests_total), ..*old(m) }),
{
    if m.rest_requests_total < 0xffff_ffff_ffff_ffff {
        m.rest_requests_total = m.rest_requests_total + 1;
    }
}

} // verus!
