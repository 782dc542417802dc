//! The durable keyed backend: five named LMDB partitions reached
//! through heed.  Everything here is a trusted boundary: each wrapper
//! makes one logical store operation inside its own transaction, and
//! its contract states what the operation does to the partition's
//! contents, which the uninterpreted table functions name.
//!
//! The contracts describe the partitions as maps from key bytes to
//! value bytes, faithful as long as the environment is touched only
//! through one `StoreBackend` value, which the owning store enforces
//! by taking writes through `&mut self`.

use vstd::prelude::*;

verus! {

/// Handles to the LMDB environment and its five partitions.
#[verifier::external_body]
pub struct StoreBackend {
    env: heed::Env,
    ip_v4: heed::Database<heed::types::ByteSlice, heed::types::ByteSlice>,
    ip_v6: heed::Database<heed::types::ByteSlice, heed::types::ByteSlice>,
    cidr_v4: heed::Database<heed::types::ByteSlice, heed::types::ByteSlice>,
    cidr_v6: heed::Database<heed::types::ByteSlice, heed::types::ByteSlice>,
    metadata: heed::Database<heed::types::ByteSlice, heed::types::ByteSlice>,
}

/// The contents of the `ip_v4` partition.
pub uninterp spec fn ip_v4_table(b: StoreBackend) -> Map<Seq<u8>, Seq<u8>>;

/// The contents of the `ip_v6` partition.
pub uninterp spec fn ip_v6_table(b: StoreBackend) -> Map<Seq<u8>, Seq<u8>>;

/// The contents of the `cidr_v4` partition.
pub uninterp spec fn cidr_v4_table(b: StoreBackend) -> Map<Seq<u8>, Seq<u8>>;

/// The contents of the `cidr_v6` partition.
pub uninterp spec fn cidr_v6_table(b: StoreBackend) -> Map<Seq<u8>, Seq<u8>>;

/// The contents of the `metadata` partition.
pub uninterp spec fn meta_table(b: StoreBackend) -> Map<Seq<u8>, Seq<u8>>;

/// All five partitions at once, for stating what a call leaves alone.
pub open spec fn tables_unchanged_but_meta(b1: StoreBackend, b2: StoreBackend) -> bool {
    &&& ip_v4_table(b1) == ip_v4_table(b2)
    &&& ip_v6_table(b1) == ip_v6_table(b2)
    &&& cidr_v4_table(b1) == cidr_v4_table(b2)
    &&& cidr_v6_table(b1) == cidr_v6_table(b2)
}

pub open spec fn all_tables_unchanged(b1: StoreBackend, b2: StoreBackend) -> bool {
    tables_unchanged_but_meta(b1, b2) && meta_table(b1) == meta_table(b2)
}

impl StoreBackend {
    /// Relies on `EnvOpenOptions::open` and `Env::create_database`:
    /// opens or creates the five named partitions under an existing
    /// directory.  Nothing is assumed about what the files hold.
    #[verifier::external_body]
    pub(crate) fn open(path: &str) -> (r: Result<StoreBackend, String>) {
        let env = heed::EnvOpenOptions::new().max_dbs(5).map_size(1024 * 1024 * 1024).open(
            std::path::Path::new(path),
        ).map_err(|e| e.to_string())?;
        let ip_v4 = env.create_database(Some("ip_v4")).map_err(|e| e.to_string())?;
        let ip_v6 = env.create_database(Some("ip_v6")).map_err(|e| e.to_string())?;
        let cidr_v4 = env.create_database(Some("cidr_v4")).map_err(|e| e.to_string())?;
        let cidr_v6 = env.create_database(Some("cidr_v6")).map_err(|e| e.to_string())?;
        let metadata = env.create_database(Some("metadata")).map_err(|e| e.to_string())?;
        Ok(StoreBackend { env, ip_v4, ip_v6, cidr_v4, cidr_v6, metadata })
    }

    /// Relies on `Env::read_txn`: a read snapshot can be taken.
    #[verifier::external_body]
    pub(crate) fn is_healthy(&self) -> bool {
        self.env.read_txn().is_ok()
    }
}

impl StoreBackend {
    /// Relies on `Database::put` under `Env::write_txn` and
    /// `RwTxn::commit`: on success the pair is stored, replacing any
    /// value under the key; on failure nothing changes.
    #[verifier::external_body]
    pub(crate) fn put_ip_v4(&mut self, key: &[u8], val: &[u8]) -> (r: Result<(), String>)
        ensures
            r is Ok ==> ip_v4_table(*final(self)) == ip_v4_table(*old(self)).insert(key@, val@)
                && ip_v6_table(*old(self)) == ip_v6_table(*final(self)) && cidr_v4_table(*old(self)) == cidr_v4_table(*final(self)) && cidr_v6_table(*old(self)) == cidr_v6_table(*final(self)) && meta_table(*old(self)) == meta_table(*final(self)),
            r is Err ==> all_tables_unchanged(*old(self), *final(self)),
    {
        let mut t = match self.env.write_txn() {
            Ok(t) => t,
            Err(e) => return Err(e.to_string()),
        };
        if let Err(e) = self.ip_v4.put(&mut t, key, val) {
            return Err(e.to_string());
        }
        match t.commit() {
            Ok(()) => Ok(()),
            Err(e) => Err(e.to_string()),
        }
    }

    /// Relies on `Database::get` under `Env::read_txn`: returns the
    /// value stored under the key, if any.
    #[verifier::external_body]
    pub(crate) fn get_ip_v4(&self, key: &[u8]) -> (r: Result<Option<Vec<u8>>, String>)
        ensures
            r matches Ok(o) ==> match o {
                Some(v) => ip_v4_table(*self).contains_key(key@) && ip_v4_table(*self)[key@] == v@,
                None => !ip_v4_table(*self).contains_key(key@),
            },
    {
        let t = match self.env.read_txn() {
            Ok(t) => t,
            Err(e) => return Err(e.to_string()),
        };
        match self.ip_v4.get(&t, key) {
            Ok(Some(v)) => Ok(Some(v.to_vec())),
            Ok(None) => Ok(None),
            Err(e) => Err(e.to_string()),
        }
    }

    /// Relies on `Database::delete` under a write transaction: on
    /// success the key is gone and the result says whether it was
    /// there; on failure nothing changes.
    #[verifier::external_body]
    pub(crate) fn del_ip_v4(&mut self, key: &[u8]) -> (r: Result<bool, String>)
        ensures
            r matches Ok(b) ==> ip_v4_table(*final(self)) == ip_v4_table(*old(self)).remove(key@) && b
                == ip_v4_table(*old(self)).contains_key(key@) && ip_v6_table(*old(self)) == ip_v6_table(*final(self)) && cidr_v4_table(*old(self)) == cidr_v4_table(*final(self)) && cidr_v6_table(*old(self)) == cidr_v6_table(*final(self)) && meta_table(*old(self)) == meta_table(*final(self)),
            r is Err ==> all_tables_unchanged(*old(self), *final(self)),
    {
        let mut t = match self.env.write_txn() {
            Ok(t) => t,
            Err(e) => return Err(e.to_string()),
        };
        let b = match self.ip_v4.delete(&mut t, key) {
            Ok(b) => b,
            Err(e) => return Err(e.to_string()),
        };
        match t.commit() {
            Ok(()) => Ok(b),
            Err(e) => Err(e.to_string()),
        }
    }

    /// Relies on `Database::clear` under a write transaction: on
    /// success the partition is empty; on failure nothing changes.
    #[verifier::external_body]
    pub(crate) fn clear_ip_v4(&mut self) -> (r: Result<(), String>)
        ensures
            r is Ok ==> ip_v4_table(*final(self)) == (Map::<Seq<u8>, Seq<u8>>::empty())
                && ip_v6_table(*old(self)) == ip_v6_table(*final(self)) && cidr_v4_table(*old(self)) == cidr_v4_table(*final(self)) && cidr_v6_table(*old(self)) == cidr_v6_table(*final(self)) && meta_table(*old(self)) == meta_table(*final(self)),
            r is Err ==> all_tables_unchanged(*old(self), *final(self)),
    {
        let mut t = match self.env.write_txn() {
            Ok(t) => t,
            Err(e) => return Err(e.to_string()),
        };
        if let Err(e) = self.ip_v4.clear(&mut t) {
            return Err(e.to_string());
        }
        match t.commit() {
            Ok(()) => Ok(()),
            Err(e) => Err(e.to_string()),
        }
    }

    /// Relies on `Database::iter` under a read snapshot: yields every
    /// stored pair exactly once.
    #[verifier::external_body]
    pub(crate) fn list_ip_v4(&self) -> (r: Result<Vec<(Vec<u8>, Vec<u8>)>, String>)
        ensures
            r matches Ok(v) ==> {
                &&& forall|i: int|
                    0 <= i < v@.len() ==> ip_v4_table(*self).contains_pair(
                        (#[trigger] v@[i]).0@,
                        v@[i].1@,
                    )
                &&& forall|k: Seq<u8>|
                    #[trigger] ip_v4_table(*self).contains_key(k) ==> exists|i: int|
                        0 <= i < v@.len() && v@[i].0@ == k && v@[i].1@ == ip_v4_table(*self)[k]
                &&& forall|i: int, j: int|
                    0 <= i < j < v@.len() ==> (#[trigger] v@[i]).0@ != (#[trigger] v@[j]).0@
            },
    {
        let t = self.env.read_txn().map_err(|e| e.to_string())?;
        let it = self.ip_v4.iter(&t).map_err(|e| e.to_string())?;
        let mut out: Vec<(Vec<u8>, Vec<u8>)> = Vec::new();
        for pair in it {
            let (k, v) = pair.map_err(|e| e.to_string())?;
            out.push((k.to_vec(), v.to_vec()));
        }
        Ok(out)
    }

    /// Relies on `Database::len` under a read snapshot.
    #[verifier::external_body]
    pub(crate) fn len_ip_v4(&self) -> (r: Result<u64, String>)
        ensures
            r matches Ok(n) ==> n as nat == ip_v4_table(*self).len() && ip_v4_table(*self).dom().finite(),
    {
        let t = match self.env.read_txn() {
            Ok(t) => t,
            Err(e) => return Err(e.to_string()),
        };
        self.ip_v4.len(&t).map_err(|e| e.to_string())
    }

    /// Relies on `Database::put` under `Env::write_txn` and
    /// `RwTxn::commit`: on success the pair is stored, replacing any
    /// value under the key; on failure nothing changes.
    #[verifier::external_body]
    pub(crate) fn put_ip_v6(&mut self, key: &[u8], val: &[u8]) -> (r: Result<(), String>)
        ensures
            r is Ok ==> ip_v6_table(*final(self)) == ip_v6_table(*old(self)).insert(key@, val@)
                && ip_v4_table(*old(self)) == ip_v4_table(*final(self)) && cidr_v4_table(*old(self)) == cidr_v4_table(*final(self)) && cidr_v6_table(*old(self)) == cidr_v6_table(*final(self)) && meta_table(*old(self)) == meta_table(*final(self)),
            r is Err ==> all_tables_unchanged(*old(self), *final(self)),
    {
        let mut t = match self.env.write_txn() {
            Ok(t) => t,
            Err(e) => return Err(e.to_string()),
        };
        if let Err(e) = self.ip_v6.put(&mut t, key, val) {
            return Err(e.to_string());
        }
        match t.commit() {
            Ok(()) => Ok(()),
            Err(e) => Err(e.to_string()),
        }
    }

    /// Relies on `Database::get` under `Env::read_txn`: returns the
    /// value stored under the key, if any.
    #[verifier::external_body]
    pub(crate) fn get_ip_v6(&self, key: &[u8]) -> (r: Result<Option<Vec<u8>>, String>)
        ensures
            r matches Ok(o) ==> match o {
                Some(v) => ip_v6_table(*self).contains_key(key@) && ip_v6_table(*self)[key@] == v@,
                None => !ip_v6_table(*self).contains_key(key@),
            },
    {
        let t = match self.env.read_txn() {
            Ok(t) => t,
            Err(e) => return Err(e.to_string()),
        };
        match self.ip_v6.get(&t, key) {
            Ok(Some(v)) => Ok(Some(v.to_vec())),
            Ok(None) => Ok(None),
            Err(e) => Err(e.to_string()),
        }
    }

    /// Relies on `Database::delete` under a write transaction: on
    /// success the key is gone and the result says whether it was
    /// there; on failure nothing changes.
    #[verifier::external_body]
    pub(crate) fn del_ip_v6(&mut self, key: &[u8]) -> (r: Result<bool, String>)
        ensures
            r matches Ok(b) ==> ip_v6_table(*final(self)) == ip_v6_table(*old(self)).remove(key@) && b
                == ip_v6_table(*old(self)).contains_key(key@) && ip_v4_table(*old(self)) == ip_v4_table(*final(self)) && cidr_v4_table(*old(self)) == cidr_v4_table(*final(self)) && cidr_v6_table(*old(self)) == cidr_v6_table(*final(self)) && meta_table(*old(self)) == meta_table(*final(self)),
            r is Err ==> all_tables_unchanged(*old(self), *final(self)),
    {
        let mut t = match self.env.write_txn() {
            Ok(t) => t,
            Err(e) => return Err(e.to_string()),
        };
        let b = match self.ip_v6.delete(&mut t, key) {
            Ok(b) => b,
            Err(e) => return Err(e.to_string()),
        };
        match t.commit() {
            Ok(()) => Ok(b),
            Err(e) => Err(e.to_string()),
        }
    }

    /// Relies on `Database::clear` under a write transaction: on
    /// success the partition is empty; on failure nothing changes.
    #[verifier::external_body]
    pub(crate) fn clear_ip_v6(&mut self) -> (r: Result<(), String>)
        ensures
            r is Ok ==> ip_v6_table(*final(self)) == (Map::<Seq<u8>, Seq<u8>>::empty())
                && ip_v4_table(*old(self)) == ip_v4_table(*final(self)) && cidr_v4_table(*old(self)) == cidr_v4_table(*final(self)) && cidr_v6_table(*old(self)) == cidr_v6_table(*final(self)) && meta_table(*old(self)) == meta_table(*final(self)),
            r is Err ==> all_tables_unchanged(*old(self), *final(self)),
    {
        let mut t = match self.env.write_txn() {
            Ok(t) => t,
            Err(e) => return Err(e.to_string()),
        };
        if let Err(e) = self.ip_v6.clear(&mut t) {
            return Err(e.to_string());
        }
        match t.commit() {
            Ok(()) => Ok(()),
            Err(e) => Err(e.to_string()),
        }
    }

    /// Relies on `Database::iter` under a read snapshot: yields every
    /// stored pair exactly once.
    #[verifier::external_body]
    pub(crate) fn list_ip_v6(&self) -> (r: Result<Vec<(Vec<u8>, Vec<u8>)>, String>)
        ensures
            r matches Ok(v) ==> {
                &&& forall|i: int|
                    0 <= i < v@.len() ==> ip_v6_table(*self).contains_pair(
                        (#[trigger] v@[i]).0@,
                        v@[i].1@,
                    )
                &&& forall|k: Seq<u8>|
                    #[trigger] ip_v6_table(*self).contains_key(k) ==> exists|i: int|
                        0 <= i < v@.len() && v@[i].0@ == k && v@[i].1@ == ip_v6_table(*self)[k]
                &&& forall|i: int, j: int|
                    0 <= i < j < v@.len() ==> (#[trigger] v@[i]).0@ != (#[trigger] v@[j]).0@
            },
    {
        let t = self.env.read_txn().map_err(|e| e.to_string())?;
        let it = self.ip_v6.iter(&t).map_err(|e| e.to_string())?;
        let mut out: Vec<(Vec<u8>, Vec<u8>)> = Vec::new();
        for pair in it {
            let (k, v) = pair.map_err(|e| e.to_string())?;
            out.push((k.to_vec(), v.to_vec()));
        }
        Ok(out)
    }

    /// Relies on `Database::len` under a read snapshot.
    #[verifier::external_body]
    pub(crate) fn len_ip_v6(&self) -> (r: Result<u64, String>)
        ensures
            r matches Ok(n) ==> n as nat == ip_v6_table(*self).len() && ip_v6_table(*self).dom().finite(),
    {
        let t = match self.env.read_txn() {
            Ok(t) => t,
            Err(e) => return Err(e.to_string()),
        };
        self.ip_v6.len(&t).map_err(|e| e.to_string())
    }

    /// Relies on `Database::put` under `Env::write_txn` and
    /// `RwTxn::commit`: on success the pair is stored, replacing any
    /// value under the key; on failure nothing changes.
    #[verifier::external_body]
    pub(crate) fn put_cidr_v4(&mut self, key: &[u8], val: &[u8]) -> (r: Result<(), String>)
        ensures
            r is Ok ==> cidr_v4_table(*final(self)) == cidr_v4_table(*old(self)).insert(key@, val@)
                && ip_v4_table(*old(self)) == ip_v4_table(*final(self)) && ip_v6_table(*old(self)) == ip_v6_table(*final(self)) && cidr_v6_table(*old(self)) == cidr_v6_table(*final(self)) && meta_table(*old(self)) == meta_table(*final(self)),
            r is Err ==> all_tables_unchanged(*old(self), *final(self)),
    {
        let mut t = match self.env.write_txn() {
            Ok(t) => t,
            Err(e) => return Err(e.to_string()),
        };
        if let Err(e) = self.cidr_v4.put(&mut t, key, val) {
            return Err(e.to_string());
        }
        match t.commit() {
            Ok(()) => Ok(()),
            Err(e) => Err(e.to_string()),
        }
    }

    /// Relies on `Database::get` under `Env::read_txn`: returns the
    /// value stored under the key, if any.
    #[verifier::external_body]
    pub(crate) fn get_cidr_v4(&self, key: &[u8]) -> (r: Result<Option<Vec<u8>>, String>)
        ensures
            r matches Ok(o) ==> match o {
                Some(v) => cidr_v4_table(*self).contains_key(key@) && cidr_v4_table(*self)[key@] == v@,
                None => !cidr_v4_table(*self).contains_key(key@),
            },
    {
        let t = match self.env.read_txn() {
            Ok(t) => t,
            Err(e) => return Err(e.to_string()),
        };
        match self.cidr_v4.get(&t, key) {
            Ok(Some(v)) => Ok(Some(v.to_vec())),
            Ok(None) => Ok(None),
            Err(e) => Err(e.to_string()),
        }
    }

    /// Relies on `Database::delete` under a write transaction: on
    /// success the key is gone and the result says whether it was
    /// there; on failure nothing changes.
    #[verifier::external_body]
    pub(crate) fn del_cidr_v4(&mut self, key: &[u8]) -> (r: Result<bool, String>)
        ensures
            r matches Ok(b) ==> cidr_v4_table(*final(self)) == cidr_v4_table(*old(self)).remove(key@) && b
                == cidr_v4_table(*old(self)).contains_key(key@) && ip_v4_table(*old(self)) == ip_v4_table(*final(self)) && ip_v6_table(*old(self)) == ip_v6_table(*final(self)) && cidr_v6_table(*old(self)) == cidr_v6_table(*final(self)) && meta_table(*old(self)) == meta_table(*final(self)),
            r is Err ==> all_tables_unchanged(*old(self), *final(self)),
    {
        let mut t = match self.env.write_txn() {
            Ok(t) => t,
            Err(e) => return Err(e.to_string()),
        };
        let b = match self.cidr_v4.delete(&mut t, key) {
            Ok(b) => b,
            Err(e) => return Err(e.to_string()),
        };
        match t.commit() {
            Ok(()) => Ok(b),
            Err(e) => Err(e.to_string()),
        }
    }

    /// Relies on `Database::clear` under a write transaction: on
    /// success the partition is empty; on failure nothing changes.
    #[verifier::external_body]
    pub(crate) fn clear_cidr_v4(&mut self) -> (r: Result<(), String>)
        ensures
            r is Ok ==> cidr_v4_table(*final(self)) == (Map::<Seq<u8>, Seq<u8>>::empty())
                && ip_v4_table(*old(self)) == ip_v4_table(*final(self)) && ip_v6_table(*old(self)) == ip_v6_table(*final(self)) && cidr_v6_table(*old(self)) == cidr_v6_table(*final(self)) && meta_table(*old(self)) == meta_table(*final(self)),
            r is Err ==> all_tables_unchanged(*old(self), *final(self)),
    {
        let mut t = match self.env.write_txn() {
            Ok(t) => t,
            Err(e) => return Err(e.to_string()),
        };
        if let Err(e) = self.cidr_v4.clear(&mut t) {
            return Err(e.to_string());
        }
        match t.commit() {
            Ok(()) => Ok(()),
            Err(e) => Err(e.to_string()),
        }
    }

    /// Relies on `Database::iter` under a read snapshot: yields every
    /// stored pair exactly once.
    #[verifier::external_body]
    pub(crate) fn list_cidr_v4(&self) -> (r: Result<Vec<(Vec<u8>, Vec<u8>)>, String>)
        ensures
            r matches Ok(v) ==> {
                &&& forall|i: int|
                    0 <= i < v@.len() ==> cidr_v4_table(*self).contains_pair(
                        (#[trigger] v@[i]).0@,
                        v@[i].1@,
                    )
                &&& forall|k: Seq<u8>|
                    #[trigger] cidr_v4_table(*self).contains_key(k) ==> exists|i: int|
                        0 <= i < v@.len() && v@[i].0@ == k && v@[i].1@ == cidr_v4_table(*self)[k]
                &&& forall|i: int, j: int|
                    0 <= i < j < v@.len() ==> (#[trigger] v@[i]).0@ != (#[trigger] v@[j]).0@
            },
    {
        let t = self.env.read_txn().map_err(|e| e.to_string())?;
        let it = self.cidr_v4.iter(&t).map_err(|e| e.to_string())?;
        let mut out: Vec<(Vec<u8>, Vec<u8>)> = Vec::new();
        for pair in it {
            let (k, v) = pair.map_err(|e| e.to_string())?;
            out.push((k.to_vec(), v.to_vec()));
        }
        Ok(out)
    }

    /// Relies on `Database::len` under a read snapshot.
    #[verifier::external_body]
    pub(crate) fn len_cidr_v4(&self) -> (r: Result<u64, String>)
        ensures
            r matches Ok(n) ==> n as nat == cidr_v4_table(*self).len() && cidr_v4_table(*self).dom().finite(),
    {
        let t = match self.env.read_txn() {
            Ok(t) => t,
            Err(e) => return Err(e.to_string()),
        };
        self.cidr_v4.len(&t).map_err(|e| e.to_string())
    }

    /// Relies on `Database::put` under `Env::write_txn` and
    /// `RwTxn::commit`: on success the pair is stored, replacing any
    /// value under the key; on failure nothing changes.
    #[verifier::external_body]
    pub(crate) fn put_cidr_v6(&mut self, key: &[u8], val: &[u8]) -> (r: Result<(), String>)
        ensures
            r is Ok ==> cidr_v6_table(*final(self)) == cidr_v6_table(*old(self)).insert(key@, val@)
                && ip_v4_table(*old(self)) == ip_v4_table(*final(self)) && ip_v6_table(*old(self)) == ip_v6_table(*final(self)) && cidr_v4_table(*old(self)) == cidr_v4_table(*final(self)) && meta_table(*old(self)) == meta_table(*final(self)),
            r is Err ==> all_tables_unchanged(*old(self), *final(self)),
    {
        let mut t = match self.env.write_txn() {
            Ok(t) => t,
            Err(e) => return Err(e.to_string()),
        };
        if let Err(e) = self.cidr_v6.put(&mut t, key, val) {
            return Err(e.to_string());
        }
        match t.commit() {
            Ok(()) => Ok(()),
            Err(e) => Err(e.to_string()),
        }
    }

    /// Relies on `Database::get` under `Env::read_txn`: returns the
    /// value stored under the key, if any.
    #[verifier::external_body]
    pub(crate) fn get_cidr_v6(&self, key: &[u8]) -> (r: Result<Option<Vec<u8>>, String>)
        ensures
            r matches Ok(o) ==> match o {
                Some(v) => cidr_v6_table(*self).contains_key(key@) && cidr_v6_table(*self)[key@] == v@,
                None => !cidr_v6_table(*self).contains_key(key@),
            },
    {
        let t = match self.env.read_txn() {
            Ok(t) => t,
            Err(e) => return Err(e.to_string()),
        };
        match self.cidr_v6.get(&t, key) {
            Ok(Some(v)) => Ok(Some(v.to_vec())),
            Ok(None) => Ok(None),
            Err(e) => Err(e.to_string()),
        }
    }

    /// Relies on `Database::delete` under a write transaction: on
    /// success the key is gone and the result says whether it was
    /// there; on failure nothing changes.
    #[verifier::external_body]
    pub(crate) fn del_cidr_v6(&mut self, key: &[u8]) -> (r: Result<bool, String>)
        ensures
            r matches Ok(b) ==> cidr_v6_table(*final(self)) == cidr_v6_table(*old(self)).remove(key@) && b
                == cidr_v6_table(*old(self)).contains_key(key@) && ip_v4_table(*old(self)) == ip_v4_table(*final(self)) && ip_v6_table(*old(self)) == ip_v6_table(*final(self)) && cidr_v4_table(*old(self)) == cidr_v4_table(*final(self)) && meta_table(*old(self)) == meta_table(*final(self)),
            r is Err ==> all_tables_unchanged(*old(self), *final(self)),
    {
        let mut t = match self.env.write_txn() {
            Ok(t) => t,
            Err(e) => return Err(e.to_string()),
        };
        let b = match self.cidr_v6.delete(&mut t, key) {
            Ok(b) => b,
            Err(e) => return Err(e.to_string()),
        };
        match t.commit() {
            Ok(()) => Ok(b),
            Err(e) => Err(e.to_string()),
        }
    }

    /// Relies on `Database::clear` under a write transaction: on
    /// success the partition is empty; on failure nothing changes.
    #[verifier::external_body]
    pub(crate) fn clear_cidr_v6(&mut self) -> (r: Result<(), String>)
        ensures
            r is Ok ==> cidr_v6_table(*final(self)) == (Map::<Seq<u8>, Seq<u8>>::empty())
                && ip_v4_table(*old(self)) == ip_v4_table(*final(self)) && ip_v6_table(*old(self)) == ip_v6_table(*final(self)) && cidr_v4_table(*old(self)) == cidr_v4_table(*final(self)) && meta_table(*old(self)) == meta_table(*final(self)),
            r is Err ==> all_tables_unchanged(*old(self), *final(self)),
    {
        let mut t = match self.env.write_txn() {
            Ok(t) => t,
            Err(e) => return Err(e.to_string()),
        };
        if let Err(e) = self.cidr_v6.clear(&mut t) {
            return Err(e.to_string());
        }
        match t.commit() {
            Ok(()) => Ok(()),
            Err(e) => Err(e.to_string()),
        }
    }

    /// Relies on `Database::iter` under a read snapshot: yields every
    /// stored pair exactly once.
    #[verifier::external_body]
    pub(crate) fn list_cidr_v6(&self) -> (r: Result<Vec<(Vec<u8>, Vec<u8>)>, String>)
        ensures
            r matches Ok(v) ==> {
                &&& forall|i: int|
                    0 <= i < v@.len() ==> cidr_v6_table(*self).contains_pair(
                        (#[trigger] v@[i]).0@,
                        v@[i].1@,
                    )
                &&& forall|k: Seq<u8>|
                    #[trigger] cidr_v6_table(*self).contains_key(k) ==> exists|i: int|
                        0 <= i < v@.len() && v@[i].0@ == k && v@[i].1@ == cidr_v6_table(*self)[k]
                &&& forall|i: int, j: int|
                    0 <= i < j < v@.len() ==> (#[trigger] v@[i]).0@ != (#[trigger] v@[j]).0@
            },
    {
        let t = self.env.read_txn().map_err(|e| e.to_string())?;
        let it = self.cidr_v6.iter(&t).map_err(|e| e.to_string())?;
        let mut out: Vec<(Vec<u8>, Vec<u8>)> = Vec::new();
        for pair in it {
            let (k, v) = pair.map_err(|e| e.to_string())?;
            out.push((k.to_vec(), v.to_vec()));
        }
        Ok(out)
    }

    /// Relies on `Database::len` under a read snapshot.
    #[verifier::external_body]
    pub(crate) fn len_cidr_v6(&self) -> (r: Result<u64, String>)
        ensures
            r matches Ok(n) ==> n as nat == cidr_v6_table(*self).len() && cidr_v6_table(*self).dom().finite(),
    {
        let t = match self.env.read_txn() {
            Ok(t) => t,
            Err(e) => return Err(e.to_string()),
        };
        self.cidr_v6.len(&t).map_err(|e| e.to_string())
    }

    /// Relies on `Database::put` under `Env::write_txn` and
    /// `RwTxn::commit`: on success the pair is stored, replacing any
    /// value under the key; on failure nothing changes.
    #[verifier::external_body]
    pub(crate) fn put_meta(&mut self, key: &[u8], val: &[u8]) -> (r: Result<(), String>)
        ensures
            r is Ok ==> meta_table(*final(self)) == meta_table(*old(self)).insert(key@, val@)
                && ip_v4_table(*old(self)) == ip_v4_table(*final(self)) && ip_v6_table(*old(self)) == ip_v6_table(*final(self)) && cidr_v4_table(*old(self)) == cidr_v4_table(*final(self)) && cidr_v6_table(*old(self)) == cidr_v6_table(*final(self)),
            r is Err ==> all_tables_unchanged(*old(self), *final(self)),
    {
        let mut t = match self.env.write_txn() {
            Ok(t) => t,
            Err(e) => return Err(e.to_string()),
        };
        if let Err(e) = self.metadata.put(&mut t, key, val) {
            return Err(e.to_string());
        }
        match t.commit() {
            Ok(()) => Ok(()),
            Err(e) => Err(e.to_string()),
        }
    }

    /// Relies on `Database::get` under `Env::read_txn`: returns the
    /// value stored under the key, if any.
    #[verifier::external_body]
    pub(crate) fn get_meta(&self, key: &[u8]) -> (r: Result<Option<Vec<u8>>, String>)
        ensures
            r matches Ok(o) ==> match o {
                Some(v) => meta_table(*self).contains_key(key@) && meta_table(*self)[key@] == v@,
                None => !meta_table(*self).contains_key(key@),
            },
    {
        let t = match self.env.read_txn() {
            Ok(t) => t,
            Err(e) => return Err(e.to_string()),
        };
        match self.metadata.get(&t, key) {
            Ok(Some(v)) => Ok(Some(v.to_vec())),
            Ok(None) => Ok(None),
            Err(e) => Err(e.to_string()),
        }
    }
}

} // verus!
