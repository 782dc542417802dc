//! The sync schedule's decisions, as pure functions: how long to
//! sleep until the configured UTC hour comes around again, what a
//! scheduled sync should do once the snapshot is fetched, and what
//! the initial sync at startup should do.  The loop that sleeps,
//! downloads and applies the decisions runs outside the library.

use vstd::prelude::*;

use crate::downloader::DownloadError;
use crate::importer::ImportError;
use crate::store::DbError;

verus! {

/// A sync failure, from whichever stage raised it.
#[derive(Debug)]
pub enum SyncError {
    Download(DownloadError),
    Import(ImportError),
    Database(DbError),
}

/// Seconds in a day.
pub const DAY_SECONDS: u64 = 86400;

/// Seconds from `now` (Unix seconds) until the next occurrence of
/// `target_hour:00:00` UTC — tomorrow's, if today's has passed or is
/// this very second.
pub fn duration_until_next_sync(now: i64, target_hour: u8) -> (r: u64)
    requires
        now >= 0,
        target_hour <= 23,
    ensures
        ({
            let into_day = now as int % 86400;
            let target = target_hour as int * 3600;
            r as int == if into_day < target {
                target - into_day
            } else {
                target + 86400 - into_day
            }
        }),
        1 <= r <= 86400,
{
    let into_day: i64 = now % 86400;
    let target: i64 = (target_hour as i64) * 3600;
    if into_day < target {
        (target - into_day) as u64
    } else {
        (target + 86400 - into_day) as u64
    }
}

/// What a scheduled sync does once the snapshot is fetched.
#[derive(Debug, Clone, Copy, PartialEq, Eq, Structural)]
pub enum SyncAction {
    FullImport,
    IncrementalImport,
    Skip,
}

/// An empty store takes the snapshot whole; a changed fingerprint is
/// applied incrementally; an unchanged one is skipped.
pub fn plan_scheduled_sync(store_empty: bool, cached_hash: Option<&String>, new_hash: &String) -> (r:
    SyncAction)
    ensures
        store_empty ==> r == SyncAction::FullImport,
        !store_empty ==> match cached_hash {
            Some(h) => if h@ == new_hash@ {
                r == SyncAction::Skip
            } else {
                r == SyncAction::IncrementalImport
            },
            None => r == SyncAction::IncrementalImport,
        },
{
    if store_empty {
        SyncAction::FullImport
    } else {
        match cached_hash {
            Some(h) => {
                if h.eq(new_hash) {
                    SyncAction::Skip
                } else {
                    SyncAction::IncrementalImport
                }
            },
            None => SyncAction::IncrementalImport,
        }
    }
}

/// What the initial sync at startup does.
#[derive(Debug, Clone, Copy, PartialEq, Eq, Structural)]
pub enum InitialAction {
    RebuildFromFile,
    DownloadAndImport,
    Nothing,
}

/// An empty store rebuilds from a local snapshot if one exists, else
/// downloads; a populated store is authoritative as it stands.
pub fn plan_initial_sync(store_empty: bool, csv_file_exists: bool) -> (r: InitialAction)
    ensures
        r == if store_empty {
            if csv_file_exists {
                InitialAction::RebuildFromFile
            } else {
                InitialAction::DownloadAndImport
            }
        } else {
            InitialAction::Nothing
        },
{
    if store_empty {
        if csv_file_exists {
            InitialAction::RebuildFromFile
        } else {
            InitialAction::DownloadAndImport
        }
    } else {
        InitialAction::Nothing
    }
}

} // verus!
