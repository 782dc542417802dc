//! Applying a parsed snapshot to the store.
//!
//! A full import clears the entry tables, inserts every record while
//! building a fresh trie in step, writes the metadata record, and
//! swaps the trie in: afterwards the store holds exactly the records
//! and the trie agrees with the CIDR tables.  An incremental import
//! diffs the records against a snapshot of the stored entries by
//! their canonical text — insert what is absent, overwrite what
//! changed, delete what disappeared — counting each kind, then
//! rewrites the metadata and rebuilds the trie.

use vstd::prelude::*;
use vstd::string::StringSliceAdditionalSpecFns;
use vstd::utf8::encode_utf8;

use crate::addr::{Cidr, IpAddress};
use crate::csv::{parse_csv_parallel, spec_csv_ok, CsvRecord};
use crate::flags::ReputationFlags;
use crate::fmt::ascii_chars_of;
use crate::meta::{spec_encode_metadata, Metadata};
use crate::store::{
    elem_sound,
    found_in, out_sound, spec_entry_key, spec_fmt_entry_key, Database, DbError, EntryKey,
};
use crate::text::parse_cidr_bytes;
use crate::trie::IpTrie;

verus! {

/// An import failure: a malformed snapshot, or the store refusing.
#[derive(Debug)]
pub enum ImportError {
    CsvParse(String),
    Database(DbError),
    Io(String),
}

/// The store contents a record list denotes: later records win.
pub open spec fn spec_records_map(rs: Seq<CsvRecord>) -> Map<EntryKey, ReputationFlags>
    decreases rs.len(),
{
    if rs.len() == 0 {
        Map::empty()
    } else {
        let m = spec_records_map(rs.drop_last());
        match spec_entry_key(encode_utf8(rs.last().ip@)) {
            Some(k) => m.insert(k, rs.last().flags),
            None => m,
        }
    }
}

/// The metadata record an import at time `now` with hash `h` and
/// count `n` leaves behind.
pub open spec fn spec_import_meta(d: Database, now: i64, h: Seq<char>, n: int) -> bool {
    exists|m: Metadata|
        {
            &&& d.meta_raw() == Some(#[trigger] spec_encode_metadata(m))
            &&& m.last_sync == Some(now)
            &&& m.csv_hash matches Some(hh) && hh@ == h
            &&& m.record_count as int == n
        }
}

/// Insert one record into the store and mirror it into the trie.
fn import_one(db: &mut Database, t: &mut IpTrie, rec: &CsvRecord) -> (r: Result<(), DbError>)
    requires
        old(db).inv(),
        old(t).wf(),
        old(t).v4_map() == old(db).cidrs_v4(),
        old(t).v6_map() == old(db).cidrs_v6(),
    ensures
        final(db).inv(),
        final(t).wf(),
        Database::same_trie(*old(db), *final(db)),
        final(db).meta_raw() == old(db).meta_raw(),
        r is Ok ==> {
            &&& final(t).v4_map() == final(db).cidrs_v4()
            &&& final(t).v6_map() == final(db).cidrs_v6()
            &&& final(db).entries() == (match spec_entry_key(encode_utf8(rec.ip@)) {
                Some(k) => old(db).entries().insert(k, rec.flags),
                None => old(db).entries(),
            })
        },
{
    let ghost d0 = *db;
    let parsed = parse_cidr_bytes(rec.ip.as_str().as_bytes());
    match db.insert_record(rec.ip.as_str(), &rec.flags) {
        Ok(()) => {},
        Err(e) => {
            return Err(e);
        },
    }
    proof {
        crate::store::lemma_family_of_entries(d0, *db, encode_utf8(rec.ip@), rec.flags);
    }
    match parsed {
        Some(c) => {
            let max = c.addr.max_prefix_len();
            if c.prefix != max {
                let n = c.network();
                t.insert(&n, rec.flags);
            }
        },
        None => {},
    }
    Ok(())
}

/// Clear, insert every record while building the trie, write the
/// metadata, and swap the trie in.
#[verifier::loop_isolation(false)]
#[verifier::rlimit(100)]
pub fn do_full_import(db: &mut Database, records: &Vec<CsvRecord>, hash: &str, now: i64) -> (r:
    Result<u64, ImportError>)
    requires
        old(db).inv(),
    ensures
        final(db).inv(),
        r matches Ok(n) ==> {
            &&& n as int == records@.len()
            &&& final(db).entries() == spec_records_map(records@)
            &&& final(db).trie_in_sync()
            &&& spec_import_meta(*final(db), now, hash@, records@.len() as int)
        },
{
    match db.clear_all() {
        Ok(()) => {},
        Err(e) => {
            return Err(ImportError::Database(e));
        },
    }
    let mut t = IpTrie::new();
    proof {
        crate::store::lemma_entries_empty_families(*db);
        assert(spec_records_map(records@.take(0)) =~= Map::<EntryKey, ReputationFlags>::empty());
    }
    let mut i: usize = 0;
    while i < records.len()
        invariant
            db.inv(),
            t.wf(),
            i <= records@.len(),
            t.v4_map() == db.cidrs_v4(),
            t.v6_map() == db.cidrs_v6(),
            db.entries() == spec_records_map(records@.take(i as int)),
            db.meta_raw() == old(db).meta_raw(),
        decreases records@.len() - i,
    {
        match import_one(db, &mut t, &records[i]) {
            Ok(()) => {},
            Err(e) => {
                return Err(ImportError::Database(e));
            },
        }
        proof {
            let tk = records@.take(i as int + 1);
            assert(tk.drop_last() =~= records@.take(i as int));
            assert(tk.last() == records@[i as int]);
            assert(db.entries() == spec_records_map(records@.take(i as int + 1)));
        }
        i = i + 1;
    }
    proof {
        assert(records@.take(records@.len() as int) =~= records@);
    }
    let count: u64 = records.len() as u64;
    let meta = Metadata {
        last_sync: Some(now),
        csv_hash: Some(hash.to_owned()),
        record_count: count,
    };
    match db.set_metadata(&meta) {
        Ok(()) => {},
        Err(e) => {
            return Err(ImportError::Database(e));
        },
    }
    db.swap_trie(t);
    proof {
        assert(spec_import_meta(*db, now, hash@, records@.len() as int)) by {
            assert(db.meta_raw() == Some(spec_encode_metadata(meta)));
        }
        assert(count as int == records@.len());
        assert(db.entries() == spec_records_map(records@));
        assert(db.trie_in_sync());
    }
    Ok(count)
}

/// A stored entry with this text exists in the snapshot.
pub open spec fn has_str_match(ex: Seq<(String, ReputationFlags)>, s: Seq<char>) -> bool {
    exists|j: int| 0 <= j < ex.len() && (#[trigger] ex[j]).0@ == s
}

/// The first snapshot index holding this text, if any.
pub open spec fn spec_find_str(ex: Seq<(String, ReputationFlags)>, s: Seq<char>, i: int) -> Option<
    int,
>
    recommends
        0 <= i <= ex.len(),
    decreases ex.len() - i,
{
    if 0 <= i < ex.len() {
        if ex[i].0@ == s {
            Some(i)
        } else {
            spec_find_str(ex, s, i + 1)
        }
    } else {
        None
    }
}

/// A record with this text exists in the new snapshot.
pub open spec fn has_rec_match(rs: Seq<CsvRecord>, s: Seq<char>) -> bool {
    exists|i: int| 0 <= i < rs.len() && (#[trigger] rs[i]).ip@ == s
}

/// How many records are absent from the stored snapshot.
pub open spec fn spec_added(ex: Seq<(String, ReputationFlags)>, rs: Seq<CsvRecord>) -> int
    decreases rs.len(),
{
    if rs.len() == 0 {
        0
    } else {
        spec_added(ex, rs.drop_last()) + if !has_str_match(ex, rs.last().ip@) {
            1int
        } else {
            0
        }
    }
}

/// How many records are present but with different flags at their
/// first stored occurrence.
pub open spec fn spec_updated(ex: Seq<(String, ReputationFlags)>, rs: Seq<CsvRecord>) -> int
    decreases rs.len(),
{
    if rs.len() == 0 {
        0
    } else {
        spec_updated(ex, rs.drop_last()) + (match spec_find_str(ex, rs.last().ip@, 0) {
            Some(j) => if ex[j].1 != rs.last().flags {
                1int
            } else {
                0
            },
            None => 0,
        })
    }
}

/// How many stored entries disappeared from the new snapshot.
pub open spec fn spec_deleted(ex: Seq<(String, ReputationFlags)>, rs: Seq<CsvRecord>) -> int
    decreases ex.len(),
{
    if ex.len() == 0 {
        0
    } else {
        spec_deleted(ex.drop_last(), rs) + if !has_rec_match(rs, ex.last().0@) {
            1int
        } else {
            0
        }
    }
}

/// Find the first stored entry with this text.
fn find_str(ex: &Vec<(String, ReputationFlags)>, s: &String) -> (r: Option<usize>)
    ensures
        match r {
            Some(j) => Some(j as int) == spec_find_str(ex@, s@, 0) && j < ex@.len(),
            None => spec_find_str(ex@, s@, 0) is None,
        },
{
    let mut i: usize = 0;
    while i < ex.len()
        invariant
            i <= ex@.len(),
            spec_find_str(ex@, s@, 0) == spec_find_str(ex@, s@, i as int),
        decreases ex@.len() - i,
    {
        if ex[i].0.eq(s) {
            return Some(i);
        }
        i = i + 1;
    }
    None
}

/// A found index means a match exists, and no index means none does.
proof fn lemma_find_str_match(ex: Seq<(String, ReputationFlags)>, s: Seq<char>, i: int)
    requires
        0 <= i <= ex.len(),
    ensures
        spec_find_str(ex, s, i) matches Some(j) ==> i <= j < ex.len() && ex[j].0@ == s,
        spec_find_str(ex, s, i) is None ==> forall|j: int|
            i <= j < ex.len() ==> (#[trigger] ex[j]).0@ != s,
    decreases ex.len() - i,
{
    if 0 <= i < ex.len() && ex[i].0@ != s {
        lemma_find_str_match(ex, s, i + 1);
    }
}

/// Whether any record carries this text.
fn any_rec_match(rs: &Vec<CsvRecord>, s: &String) -> (r: bool)
    ensures
        r == has_rec_match(rs@, s@),
{
    let mut i: usize = 0;
    while i < rs.len()
        invariant
            i <= rs@.len(),
            forall|j: int| 0 <= j < i ==> (#[trigger] rs@[j]).ip@ != s@,
        decreases rs@.len() - i,
    {
        if rs[i].ip.eq(s) {
            return true;
        }
        i = i + 1;
    }
    false
}

/// Whether the diff writes this record: its text is absent from the
/// snapshot, or its first stored occurrence carries other flags.
pub open spec fn spec_rec_written(ex: Seq<(String, ReputationFlags)>, r: CsvRecord) -> bool {
    match spec_find_str(ex, r.ip@, 0) {
        Some(j) => ex[j].1 != r.flags,
        None => true,
    }
}

/// The store view after the insert-and-overwrite phase of the diff.
pub open spec fn spec_apply_records(
    m: Map<EntryKey, ReputationFlags>,
    ex: Seq<(String, ReputationFlags)>,
    rs: Seq<CsvRecord>,
) -> Map<EntryKey, ReputationFlags>
    decreases rs.len(),
{
    if rs.len() == 0 {
        m
    } else {
        let m2 = spec_apply_records(m, ex, rs.drop_last());
        if spec_rec_written(ex, rs.last()) {
            match spec_entry_key(encode_utf8(rs.last().ip@)) {
                Some(k) => m2.insert(k, rs.last().flags),
                None => m2,
            }
        } else {
            m2
        }
    }
}

/// The store view after the delete phase of the diff: every snapshot
/// entry whose text is absent from the records is removed.
pub open spec fn spec_apply_deletes(
    m: Map<EntryKey, ReputationFlags>,
    ex: Seq<(String, ReputationFlags)>,
    rs: Seq<CsvRecord>,
) -> Map<EntryKey, ReputationFlags>
    decreases ex.len(),
{
    if ex.len() == 0 {
        m
    } else {
        let m2 = spec_apply_deletes(m, ex.drop_last(), rs);
        if !has_rec_match(rs, ex.last().0@) {
            match spec_entry_key(encode_utf8(ex.last().0@)) {
                Some(k) => m2.remove(k),
                None => m2,
            }
        } else {
            m2
        }
    }
}

/// Diff the new records against a snapshot of the stored entries,
/// apply insertions, overwrites and deletions, rewrite the metadata,
/// and rebuild the trie.
#[verifier::loop_isolation(false)]
#[verifier::rlimit(100)]
pub fn do_incremental_import(
    db: &mut Database,
    new_records: &Vec<CsvRecord>,
    hash: &str,
    now: i64,
) -> (r: Result<(u64, u64, u64), ImportError>)
    requires
        old(db).inv(),
    ensures
        final(db).inv(),
        r matches Ok(c) ==> {
            &&& exists|ex: Seq<(String, ReputationFlags)>|
                {
                    &&& #[trigger] out_sound(ex, *old(db))
                    &&& crate::store::out_distinct(ex)
                    &&& forall|k: EntryKey, f: ReputationFlags|
                        #[trigger] old(db).entries().contains_pair(k, f) ==> found_in(ex, k, f)
                    &&& c.0 as int == spec_added(ex, new_records@)
                    &&& c.1 as int == spec_updated(ex, new_records@)
                    &&& c.2 as int == spec_deleted(ex, new_records@)
                    &&& final(db).entries() == spec_apply_deletes(
                        spec_apply_records(old(db).entries(), ex, new_records@),
                        ex,
                        new_records@,
                    )
                }
            &&& final(db).trie_in_sync()
            &&& spec_import_meta(*final(db), now, hash@, new_records@.len() as int)
        },
{
    let ghost d0 = *db;
    let existing = match db.get_all_entries() {
        Ok(v) => v,
        Err(e) => {
            return Err(ImportError::Database(e));
        },
    };
    let mut added: u64 = 0;
    let mut updated: u64 = 0;
    let mut deleted: u64 = 0;
    proof {
        assert(spec_apply_records(d0.entries(), existing@, new_records@.take(0)) == d0.entries());
    }
    let mut i: usize = 0;
    while i < new_records.len()
        invariant
            db.inv(),
            i <= new_records@.len(),
            added as int == spec_added(existing@, new_records@.take(i as int)),
            updated as int == spec_updated(existing@, new_records@.take(i as int)),
            added <= i,
            updated <= i,
            db.entries() == spec_apply_records(d0.entries(), existing@, new_records@.take(i as int)),
        decreases new_records@.len() - i,
    {
        let rec = &new_records[i];
        let found = find_str(&existing, &rec.ip);
        match found {
            None => {
                match db.insert_record(rec.ip.as_str(), &rec.flags) {
                    Ok(()) => {},
                    Err(e) => {
                        return Err(ImportError::Database(e));
                    },
                }
                added = added + 1;
            },
            Some(j) => {
                if existing[j].1 != rec.flags {
                    match db.insert_record(rec.ip.as_str(), &rec.flags) {
                        Ok(()) => {},
                        Err(e) => {
                            return Err(ImportError::Database(e));
                        },
                    }
                    updated = updated + 1;
                }
            },
        }
        proof {
            let tk = new_records@.take(i as int + 1);
            assert(tk.drop_last() =~= new_records@.take(i as int));
            assert(tk.last() == new_records@[i as int]);
            lemma_find_str_match(existing@, new_records@[i as int].ip@, 0);
            assert(db.entries() == spec_apply_records(
                d0.entries(),
                existing@,
                new_records@.take(i as int + 1),
            )) by {
                if found is Some {
                    assert(spec_rec_written(existing@, new_records@[i as int]) == (
                    existing@[found->0 as int].1 != new_records@[i as int].flags));
                } else {
                    assert(spec_rec_written(existing@, new_records@[i as int]));
                }
            }
            if found is Some {
                assert(has_str_match(existing@, new_records@[i as int].ip@));
            } else {
                assert(!has_str_match(existing@, new_records@[i as int].ip@)) by {
                    if has_str_match(existing@, new_records@[i as int].ip@) {
                        let j0 = choose|j0: int|
                            0 <= j0 < existing@.len() && (#[trigger] existing@[j0]).0@
                                == new_records@[i as int].ip@;
                        assert(false);
                    }
                }
            }
        }
        i = i + 1;
    }
    proof {
        assert(new_records@.take(new_records@.len() as int) =~= new_records@);
    }
    let ghost after_records = spec_apply_records(d0.entries(), existing@, new_records@);
    proof {
        assert(spec_apply_deletes(after_records, existing@.take(0), new_records@)
            == after_records);
    }
    let mut j: usize = 0;
    while j < existing.len()
        invariant
            db.inv(),
            j <= existing@.len(),
            deleted as int == spec_deleted(existing@.take(j as int), new_records@),
            deleted <= j,
            db.entries() == spec_apply_deletes(after_records, existing@.take(j as int), new_records@),
        decreases existing@.len() - j,
    {
        let keep = any_rec_match(new_records, &existing[j].0);
        if !keep {
            match db.delete_record(existing[j].0.as_str()) {
                Ok(_) => {},
                Err(e) => {
                    return Err(ImportError::Database(e));
                },
            }
            deleted = deleted + 1;
        }
        proof {
            let tk = existing@.take(j as int + 1);
            assert(tk.drop_last() =~= existing@.take(j as int));
            assert(tk.last() == existing@[j as int]);
            assert(db.entries() == spec_apply_deletes(
                after_records,
                existing@.take(j as int + 1),
                new_records@,
            ));
        }
        j = j + 1;
    }
    proof {
        assert(existing@.take(existing@.len() as int) =~= existing@);
    }
    let count: u64 = new_records.len() as u64;
    let meta = Metadata {
        last_sync: Some(now),
        csv_hash: Some(hash.to_owned()),
        record_count: count,
    };
    match db.set_metadata(&meta) {
        Ok(()) => {},
        Err(e) => {
            return Err(ImportError::Database(e));
        },
    }
    match db.rebuild_trie() {
        Ok(()) => {},
        Err(e) => {
            return Err(ImportError::Database(e));
        },
    }
    proof {
        assert(spec_import_meta(*db, now, hash@, new_records@.len() as int)) by {
            assert(db.meta_raw() == Some(spec_encode_metadata(meta)));
        }
        assert(out_sound(existing@, d0));
        assert(crate::store::out_distinct(existing@));
        assert(db.entries() == spec_apply_deletes(
            spec_apply_records(d0.entries(), existing@, new_records@),
            existing@,
            new_records@,
        ));
    }
    Ok((added, updated, deleted))
}

/// Parse a snapshot and apply it as a full import.
pub fn full_import(db: &mut Database, content: &str, hash: &str, now: i64) -> (r: Result<
    u64,
    ImportError,
>)
    requires
        old(db).inv(),
    ensures
        final(db).inv(),
        r matches Ok(n) ==> exists|v: Seq<CsvRecord>|
            {
                &&& #[trigger] spec_csv_ok(crate::csv::csv_rows_of(content@), v)
                &&& n as int == v.len()
                &&& final(db).entries() == spec_records_map(v)
                &&& final(db).trie_in_sync()
                &&& spec_import_meta(*final(db), now, hash@, v.len() as int)
            },
{
    let records = match parse_csv_parallel(content) {
        Ok(v) => v,
        Err(e) => {
            return Err(ImportError::CsvParse(e));
        },
    };
    let r = do_full_import(db, &records, hash, now);
    match r {
        Ok(n) => {
            proof {
                assert(spec_csv_ok(crate::csv::csv_rows_of(content@), records@));
            }
            Ok(n)
        },
        Err(e) => Err(e),
    }
}

/// Parse a snapshot and apply it as an incremental import.
pub fn incremental_import(db: &mut Database, content: &str, hash: &str, now: i64) -> (r: Result<
    (u64, u64, u64),
    ImportError,
>)
    requires
        old(db).inv(),
    ensures
        final(db).inv(),
        r matches Ok(c) ==> exists|v: Seq<CsvRecord>|
            {
                &&& #[trigger] spec_csv_ok(crate::csv::csv_rows_of(content@), v)
                &&& final(db).trie_in_sync()
                &&& spec_import_meta(*final(db), now, hash@, v.len() as int)
                &&& exists|ex: Seq<(String, ReputationFlags)>|
                    {
                        &&& #[trigger] out_sound(ex, *old(db))
                    &&& crate::store::out_distinct(ex)
                        &&& forall|k: EntryKey, f: ReputationFlags|
                            #[trigger] old(db).entries().contains_pair(k, f) ==> found_in(ex, k, f)
                        &&& c.0 as int == spec_added(ex, v)
                        &&& c.1 as int == spec_updated(ex, v)
                        &&& c.2 as int == spec_deleted(ex, v)
                        &&& final(db).entries() == spec_apply_deletes(
                            spec_apply_records(old(db).entries(), ex, v),
                            ex,
                            v,
                        )
                    }
            },
{
    let records = match parse_csv_parallel(content) {
        Ok(v) => v,
        Err(e) => {
            return Err(ImportError::CsvParse(e));
        },
    };
    let r = do_incremental_import(db, &records, hash, now);
    match r {
        Ok(c) => {
            proof {
                assert(spec_csv_ok(crate::csv::csv_rows_of(content@), records@));
            }
            Ok(c)
        },
        Err(e) => Err(e),
    }
}

/// Rebuild the whole store from a locally kept snapshot text.
pub fn rebuild_from_csv(db: &mut Database, content: &str, hash: &str, now: i64) -> (r: Result<
    u64,
    ImportError,
>)
    requires
        old(db).inv(),
    ensures
        final(db).inv(),
        r matches Ok(n) ==> exists|v: Seq<CsvRecord>|
            {
                &&& #[trigger] spec_csv_ok(crate::csv::csv_rows_of(content@), v)
                &&& n as int == v.len()
                &&& final(db).entries() == spec_records_map(v)
                &&& final(db).trie_in_sync()
                &&& spec_import_meta(*final(db), now, hash@, v.len() as int)
            },
{
    full_import(db, content, hash, now)
}


/// Importing the same snapshot again changes nothing: when the store
/// already holds exactly the records — each under its own canonical
/// text, no two records sharing a text — any faithful snapshot of the
/// stored entries diffs against those records with no additions, no
/// updates and no deletions.
pub proof fn lemma_incremental_idempotent(
    d: Database,
    ex: Seq<(String, ReputationFlags)>,
    rs: Seq<CsvRecord>,
)
    requires
        forall|i: int|
            0 <= i < rs.len() ==> (spec_entry_key(encode_utf8((#[trigger] rs[i]).ip@))
                matches Some(k) && d.entries().contains_pair(k, rs[i].flags) && ascii_chars_of(
                spec_fmt_entry_key(k),
            ) == rs[i].ip@),
        forall|k: EntryKey, f: ReputationFlags|
            #[trigger] d.entries().contains_pair(k, f) ==> exists|i: int|
                0 <= i < rs.len() && spec_entry_key(encode_utf8((#[trigger] rs[i]).ip@)) == Some(
                    k,
                ) && rs[i].flags == f,
        forall|i1: int, i2: int|
            0 <= i1 < i2 < rs.len() ==> (#[trigger] rs[i1]).ip@ != (#[trigger] rs[i2]).ip@,
        out_sound(ex, d),
        forall|k: EntryKey, f: ReputationFlags|
            #[trigger] d.entries().contains_pair(k, f) ==> found_in(ex, k, f),
    ensures
        spec_added(ex, rs) == 0,
        spec_updated(ex, rs) == 0,
        spec_deleted(ex, rs) == 0,
{
    assert forall|i: int| 0 <= i < rs.len() implies has_str_match(
        ex,
        (#[trigger] rs[i]).ip@,
    ) by {
        let k = spec_entry_key(encode_utf8(rs[i].ip@))->0;
        assert(d.entries().contains_pair(k, rs[i].flags));
        assert(found_in(ex, k, rs[i].flags));
        let idx = choose|idx: int|
            0 <= idx < ex.len() && (#[trigger] ex[idx]).1 == rs[i].flags && ex[idx].0@
                == ascii_chars_of(spec_fmt_entry_key(k));
        assert(ex[idx].0@ == rs[i].ip@);
    }
    lemma_added_zero(ex, rs);
    assert forall|i: int| 0 <= i < rs.len() implies match spec_find_str(
        ex,
        (#[trigger] rs[i]).ip@,
        0,
    ) {
        Some(j) => ex[j].1 == rs[i].flags,
        None => true,
    } by {
        lemma_find_str_match(ex, rs[i].ip@, 0);
        match spec_find_str(ex, rs[i].ip@, 0) {
            Some(j) => {
                assert(elem_sound(ex, j, d));
                let k2 = choose|k2: EntryKey|
                    d.entries().contains_pair(k2, ex[j].1) && ex[j].0@ == ascii_chars_of(
                        spec_fmt_entry_key(k2),
                    );
                let i2 = choose|i2: int|
                    0 <= i2 < rs.len() && spec_entry_key(encode_utf8((#[trigger] rs[i2]).ip@))
                        == Some(k2) && rs[i2].flags == ex[j].1;
                assert(ascii_chars_of(spec_fmt_entry_key(k2)) == rs[i2].ip@);
                assert(rs[i2].ip@ == rs[i].ip@);
                assert(i2 == i);
            },
            None => {},
        }
    }
    lemma_updated_zero(ex, rs);
    assert forall|j: int| 0 <= j < ex.len() implies has_rec_match(rs, (#[trigger] ex[j]).0@) by {
        assert(elem_sound(ex, j, d));
        let k2 = choose|k2: EntryKey|
            d.entries().contains_pair(k2, ex[j].1) && ex[j].0@ == ascii_chars_of(
                spec_fmt_entry_key(k2),
            );
        let i2 = choose|i2: int|
            0 <= i2 < rs.len() && spec_entry_key(encode_utf8((#[trigger] rs[i2]).ip@)) == Some(
                k2,
            ) && rs[i2].flags == ex[j].1;
        assert(ascii_chars_of(spec_fmt_entry_key(k2)) == rs[i2].ip@);
        assert(rs[i2].ip@ == ex[j].0@);
    }
    lemma_deleted_zero(ex, rs);
}

/// Nothing is added when every record's text is already stored.
proof fn lemma_added_zero(ex: Seq<(String, ReputationFlags)>, rs: Seq<CsvRecord>)
    requires
        forall|i: int| 0 <= i < rs.len() ==> has_str_match(ex, (#[trigger] rs[i]).ip@),
    ensures
        spec_added(ex, rs) == 0,
    decreases rs.len(),
{
    if rs.len() > 0 {
        assert(forall|i: int|
            0 <= i < rs.drop_last().len() ==> (#[trigger] rs.drop_last()[i]) == rs[i]);
        lemma_added_zero(ex, rs.drop_last());
        assert(has_str_match(ex, rs[rs.len() - 1].ip@));
    }
}

/// Nothing is updated when every stored first match already carries
/// the record's flags.
proof fn lemma_updated_zero(ex: Seq<(String, ReputationFlags)>, rs: Seq<CsvRecord>)
    requires
        forall|i: int|
            0 <= i < rs.len() ==> match spec_find_str(ex, (#[trigger] rs[i]).ip@, 0) {
                Some(j) => ex[j].1 == rs[i].flags,
                None => true,
            },
    ensures
        spec_updated(ex, rs) == 0,
    decreases rs.len(),
{
    if rs.len() > 0 {
        assert(forall|i: int|
            0 <= i < rs.drop_last().len() ==> (#[trigger] rs.drop_last()[i]) == rs[i]);
        lemma_updated_zero(ex, rs.drop_last());
        assert(rs[rs.len() - 1] == rs.last());
    }
}

/// Nothing is deleted when every stored text is among the records.
proof fn lemma_deleted_zero(ex: Seq<(String, ReputationFlags)>, rs: Seq<CsvRecord>)
    requires
        forall|j: int| 0 <= j < ex.len() ==> has_rec_match(rs, (#[trigger] ex[j]).0@),
    ensures
        spec_deleted(ex, rs) == 0,
    decreases ex.len(),
{
    if ex.len() > 0 {
        assert(forall|j: int|
            0 <= j < ex.drop_last().len() ==> (#[trigger] ex.drop_last()[j]) == ex[j]);
        lemma_deleted_zero(ex.drop_last(), rs);
        assert(has_rec_match(rs, ex[ex.len() - 1].0@));
    }
}

} // verus!
