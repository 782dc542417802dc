//! IP-reputation library: a curated set of exact IP addresses and CIDR
//! ranges, each tagged with nine reputation flags.  Queries return the
//! union of the flags of every exact and covering-prefix match.
//!
//! The core pieces are a longest-prefix-matching Patricia trie over both
//! address families, a persistent keyed store that durably holds the
//! tagged entries, and an import pipeline that turns a CSV snapshot into
//! a consistent update of both.

mod addr;
mod api;
mod backend;
mod bits;
mod config;
mod csv;
mod downloader;
mod flags;
mod fmt;
mod importer;
mod keys;
mod matcher;
mod meta;
mod metrics;
mod scheduler;
mod store;
mod text;
mod trie;

pub use addr::{Cidr, IpAddress};
pub use api::{GrpcServerConfig, LookupMetrics};
pub use config::{parse_port, parse_sync_hour, Config, GRPC_PORT, REST_PORT, SYNC_HOUR_UTC};
pub use csv::{parse_bool, parse_csv_parallel, CsvRecord};
pub use downloader::{compute_hash, DownloadError, DownloadResult};
pub use flags::ReputationFlags;
pub use importer::{
    do_full_import, do_incremental_import, full_import, incremental_import, rebuild_from_csv,
    ImportError,
};
pub use matcher::{
    batch_lookup_ip, batch_lookup_range, lookup_ip, lookup_ips_batch, lookup_range,
    lookup_ranges_batch, LookupError, LookupResult, MatchedEntry, MAX_BATCH_SIZE,
};
pub use meta::Metadata;
pub use metrics::{
    inc_grpc_requests, inc_lookup_hits, inc_rest_requests, inc_sync_failures, inc_sync_success,
    set_health_status, set_last_sync_timestamp, set_record_count, Metrics,
};
pub use scheduler::{
    duration_until_next_sync, plan_initial_sync, plan_scheduled_sync, InitialAction, SyncAction,
    SyncError,
};
pub use store::{Database, DbError, EntryKey};
pub use text::{parse_cidr, parse_ip};
pub use trie::IpTrie;

use vstd::prelude::*;

verus! {

} // verus!
