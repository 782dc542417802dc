//! Bookkeeping the request surfaces share: per-request metric
//! updates, and the tuning knobs of the RPC server.

use vstd::prelude::*;

use crate::matcher::LookupResult;
use crate::metrics::{inc_grpc_requests, inc_lookup_hits, inc_rest_requests, spec_bump, Metrics};

verus! {

/// Tracks one lookup request's metric updates.
pub struct LookupMetrics {
    pub via_grpc: bool,
}

impl LookupMetrics {
    /// Count a request arriving over the REST surface.
    pub fn start_rest(m: &mut Metrics) -> (r: LookupMetrics)
        ensures
            *final(m) == (Metrics { rest_requests_total: spec_bump(old(m).rest_requests_total), ..*old(m) }),
            !r.via_grpc,
    {
        inc_rest_requests(m);
        LookupMetrics { via_grpc: false }
    }

    /// Count a request arriving over the RPC surface.
    pub fn start_grpc(m: &mut Metrics) -> (r: LookupMetrics)
        ensures
            *final(m) == (Metrics { grpc_requests_total: spec_bump(old(m).grpc_requests_total), ..*old(m) }),
            r.via_grpc,
    {
        inc_grpc_requests(m);
        LookupMetrics { via_grpc: true }
    }

    /// Record one finished lookup: a hit when anything matched.
    pub fn record(&self, m: &mut Metrics, result: &LookupResult)
        ensures
            result.found ==> *final(m) == (Metrics {
                lookup_hits_total: spec_bump(old(m).lookup_hits_total),
                ..*old(m)
            }),
            !result.found ==> *final(m) == *old(m),
    {
        if result.found {
            inc_lookup_hits(m);
        }
    }

    /// Record one finished batch: a hit when any answer matched.
    pub fn record_batch(&self, m: &mut Metrics, any_found: bool)
        ensures
            any_found ==> *final(m) == (Metrics {
                lookup_hits_total: spec_bump(old(m).lookup_hits_total),
                ..*old(m)
            }),
            !any_found ==> *final(m) == *old(m),
    {
        if any_found {
            inc_lookup_hits(m);
        }
    }
}

/// Tuning knobs of the RPC server, in plain units.
#[derive(Debug, Clone, Copy, PartialEq, Eq, Structural)]
pub struct GrpcServerConfig {
    pub http2_keepalive_interval_secs: u64,
    pub http2_keepalive_timeout_secs: u64,
    pub tcp_keepalive_secs: u64,
    pub tcp_nodelay: bool,
    pub concurrency_limit: usize,
    pub initial_connection_window_size: u32,
    pub initial_stream_window_size: u32,
}

impl Default for GrpcServerConfig {
    /// The shipped tuning.
    fn default() -> (r: GrpcServerConfig)
        ensures
            r == (GrpcServerConfig {
                http2_keepalive_interval_secs: 30u64,
                http2_keepalive_timeout_secs: 10u64,
                tcp_keepalive_secs: 60u64,
                tcp_nodelay: true,
                concurrency_limit: 1000usize,
                initial_connection_window_size: 0x400000u32,
                initial_stream_window_size: 0x200000u32,
            }),
    {
        GrpcServerConfig {
            http2_keepalive_interval_secs: 30,
            http2_keepalive_timeout_secs: 10,
            tcp_keepalive_secs: 60,
            tcp_nodelay: true,
            concurrency_limit: 1000,
            initial_connection_window_size: 0x400000,
            initial_stream_window_size: 0x200000,
        }
    }
}

} // verus!
