//! The embedded key-value store.
//!
//! Three tables hold all metadata: `fs` (one row per named object), `seq`
//! (named 64-bit counters) and `ver` (one row per file version). The store
//! itself is an outside embedded database; each table's contents are named
//! by a spec-level map, and every method the engine calls is a thin trusted
//! wrapper whose contract says how the call moves those maps. A write
//! transaction is begun, used and then committed or aborted; until commit,
//! only the `txn_*` maps move, and commit copies them over the `store_*`
//! maps in one step. Snapshot reads (`fs_get`, `ver_get`, `fs_range`) see
//! the committed maps only.

use vstd::prelude::*;
use crate::wire::{lex_le, lex_lt};
use redb::ReadableDatabase;
use redb::ReadableTable;

verus! {

/// The embedded database, with the single open write transaction when
/// there is one.
#[verifier::external_body]
pub struct Store {
    db: redb::Database,
    wtxn: Option<redb::WriteTransaction>,
}

/// Committed contents of the `fs` table.
pub uninterp spec fn store_fs(s: Store) -> Map<Seq<u8>, Seq<u8>>;

/// Committed contents of the `seq` table.
pub uninterp spec fn store_seq(s: Store) -> Map<Seq<char>, u64>;

/// Committed contents of the `ver` table.
pub uninterp spec fn store_ver(s: Store) -> Map<Seq<u8>, Seq<u8>>;

/// Contents of the `fs` table as the open write transaction sees it.
pub uninterp spec fn txn_fs(s: Store) -> Map<Seq<u8>, Seq<u8>>;

/// Contents of the `seq` table as the open write transaction sees it.
pub uninterp spec fn txn_seq(s: Store) -> Map<Seq<char>, u64>;

/// Contents of the `ver` table as the open write transaction sees it.
pub uninterp spec fn txn_ver(s: Store) -> Map<Seq<u8>, Seq<u8>>;

/// Whether a write transaction is open.
pub uninterp spec fn txn_open(s: Store) -> bool;

/// The committed maps are unchanged between the two states.
pub open spec fn committed_unchanged(s0: Store, s1: Store) -> bool {
    &&& store_fs(s1) == store_fs(s0)
    &&& store_seq(s1) == store_seq(s0)
    &&& store_ver(s1) == store_ver(s0)
}

/// The transaction stays open and the committed maps stay put.
pub open spec fn txn_step(s0: Store, s1: Store) -> bool {
    &&& committed_unchanged(s0, s1)
    &&& txn_open(s0)
    &&& txn_open(s1)
}

/// All three tables are empty in the open transaction's view.
pub open spec fn txn_tables_empty(s: Store) -> bool {
    &&& txn_fs(s) == Map::<Seq<u8>, Seq<u8>>::empty()
    &&& txn_seq(s) == Map::<Seq<char>, u64>::empty()
    &&& txn_ver(s) == Map::<Seq<u8>, Seq<u8>>::empty()
}

impl Store {
    /// Relies on redb's `Database::create`: opens the database file,
    /// creating it when absent. Nothing is said of the table contents; a
    /// caller that needs known contents clears the tables in a
    /// transaction first.
    #[verifier::external_body]
    pub fn open(db_path: &str) -> (r: Result<Store, ()>)
        ensures
            r matches Ok(s) ==> !txn_open(s),
    {
        match redb::Database::create(db_path) {
            Ok(db) => Ok(Store { db, wtxn: None }),
            Err(_) => Err(()),
        }
    }

    /// Relies on redb's `Database::begin_write`: opens the one write
    /// transaction, which starts from the committed contents.
    #[verifier::external_body]
    pub fn begin_write(&mut self) -> (r: Result<(), ()>)
        requires
            !txn_open(*old(self)),
        ensures
            committed_unchanged(*old(self), *final(self)),
            r.is_ok() ==> txn_open(*final(self)) && txn_fs(*final(self)) == store_fs(*old(self))
                && txn_seq(*final(self)) == store_seq(*old(self)) && txn_ver(*final(self))
                == store_ver(*old(self)),
            r.is_err() ==> !txn_open(*final(self)),
    {
        match self.db.begin_write() {
            Ok(t) => {
                self.wtxn = Some(t);
                Ok(())
            },
            Err(_) => Err(()),
        }
    }

    /// Relies on redb's `WriteTransaction::commit`: on success the
    /// transaction's view becomes the committed contents, atomically and
    /// durably. On failure the changes were applied all or not at all: a
    /// poisoned transaction is rolled back, but any other failure may
    /// already have made the whole transaction durable, so it must not be
    /// assumed rolled back.
    #[verifier::external_body]
    pub fn commit(&mut self) -> (r: Result<(), ()>)
        requires
            txn_open(*old(self)),
        ensures
            !txn_open(*final(self)),
            r.is_ok() ==> store_fs(*final(self)) == txn_fs(*old(self)) && store_seq(*final(self))
                == txn_seq(*old(self)) && store_ver(*final(self)) == txn_ver(*old(self)),
            r.is_err() ==> committed_unchanged(*old(self), *final(self)) || (store_fs(
                *final(self),
            ) == txn_fs(*old(self)) && store_seq(*final(self)) == txn_seq(*old(self)) && store_ver(
                *final(self),
            ) == txn_ver(*old(self))),
    {
        match self.wtxn.take() {
            Some(t) => t.commit().map_err(|_| ()),
            None => Err(()),
        }
    }

    /// Relies on redb's `WriteTransaction::abort`: the transaction is
    /// discarded and the committed contents stand untouched.
    #[verifier::external_body]
    pub fn abort(&mut self)
        ensures
            !txn_open(*final(self)),
            committed_unchanged(*old(self), *final(self)),
    {
        if let Some(t) = self.wtxn.take() {
            let _ = t.abort();
        }
    }

    /// Relies on redb's `WriteTransaction::delete_table` and `open_table`:
    /// dropping and re-opening a table leaves it existing and empty.
    #[verifier::external_body]
    pub fn txn_clear(&mut self) -> (r: Result<(), ()>)
        requires
            txn_open(*old(self)),
        ensures
            txn_step(*old(self), *final(self)),
            r.is_ok() ==> txn_tables_empty(*final(self)),
    {
        let t = self.wtxn.as_ref().ok_or(())?;
        let fs = redb::TableDefinition::<&[u8], &[u8]>::new("fs");
        let sq = redb::TableDefinition::<&str, u64>::new("seq");
        let vr = redb::TableDefinition::<&[u8], &[u8]>::new("ver");
        t.delete_table(fs).and(t.delete_table(sq)).and(t.delete_table(vr)).map_err(|_| ())?;
        t.open_table(fs).map_err(|_| ())?;
        t.open_table(sq).map_err(|_| ())?;
        t.open_table(vr).map_err(|_| ())?;
        Ok(())
    }

    /// Relies on redb's `ReadTransaction::open_table` and
    /// `ReadOnlyTable::get`: a snapshot point read of the committed `fs`
    /// table.
    #[verifier::external_body]
    pub fn fs_get(&self, key: &Vec<u8>) -> (r: Result<Option<Vec<u8>>, ()>)
        ensures
            r matches Ok(o) ==> match o {
                Some(v) => store_fs(*self).contains_key(key@) && v@ == store_fs(*self)[key@],
                None => !store_fs(*self).contains_key(key@),
            },
    {
        let t = self.db.begin_read().map_err(|_| ())?;
        let tab = t.open_table(redb::TableDefinition::<&[u8], &[u8]>::new("fs")).map_err(
            |_| (),
        )?;
        let r = match tab.get(key.as_slice()) {
            Ok(Some(g)) => Ok(Some(g.value().to_vec())),
            Ok(None) => Ok(None),
            Err(_) => Err(()),
        };
        drop(tab);
        r
    }

    /// Relies on redb's `ReadTransaction::open_table` and
    /// `ReadOnlyTable::get`: a snapshot point read of the committed `ver`
    /// table.
    #[verifier::external_body]
    pub fn ver_get(&self, key: &Vec<u8>) -> (r: Result<Option<Vec<u8>>, ()>)
        ensures
            r matches Ok(o) ==> match o {
                Some(v) => store_ver(*self).contains_key(key@) && v@ == store_ver(*self)[key@],
                None => !store_ver(*self).contains_key(key@),
            },
    {
        let t = self.db.begin_read().map_err(|_| ())?;
        let tab = t.open_table(redb::TableDefinition::<&[u8], &[u8]>::new("ver")).map_err(
            |_| (),
        )?;
        let r = match tab.get(key.as_slice()) {
            Ok(Some(g)) => Ok(Some(g.value().to_vec())),
            Ok(None) => Ok(None),
            Err(_) => Err(()),
        };
        drop(tab);
        r
    }

    /// Relies on redb's `ReadOnlyTable::range`: all committed `fs` rows
    /// with `lo <= key < hi` in byte order, yielded in ascending byte
    /// order.
    #[verifier::external_body]
    pub fn fs_range(&self, lo: &Vec<u8>, hi: &Vec<u8>) -> (r: Result<Vec<(Vec<u8>, Vec<u8>)>, ()>)
        ensures
            r matches Ok(rows) ==> {
                &&& forall|i: int, j: int|
                    0 <= i < j < rows.len() ==> lex_lt(rows[i].0@, rows[j].0@)
                &&& forall|i: int|
                    0 <= i < rows.len() ==> #[trigger] store_fs(*self).contains_key(rows[i].0@)
                        && rows[i].1@ == store_fs(*self)[rows[i].0@] && lex_le(lo@, rows[i].0@)
                        && lex_lt(rows[i].0@, hi@)
                &&& forall|k: Seq<u8>|
                    #[trigger] store_fs(*self).contains_key(k) && lex_le(lo@, k) && lex_lt(k, hi@)
                        ==> exists|i: int| 0 <= i < rows.len() && rows[i].0@ == k
            },
    {
        let t = self.db.begin_read().map_err(|_| ())?;
        let tab = t.open_table(redb::TableDefinition::<&[u8], &[u8]>::new("fs")).map_err(
            |_| (),
        )?;
        let iter = tab.range(lo.as_slice()..hi.as_slice()).map_err(|_| ())?;
        iter.map(
            |it|
                it.map(|(k, v)| (k.value().to_vec(), v.value().to_vec())).map_err(|_| ()),
        ).collect()
    }

    /// Relies on redb's `Table::get` under the open write transaction.
    #[verifier::external_body]
    pub fn txn_fs_get(&self, key: &Vec<u8>) -> (r: Result<Option<Vec<u8>>, ()>)
        requires
            txn_open(*self),
        ensures
            r matches Ok(o) ==> match o {
                Some(v) => txn_fs(*self).contains_key(key@) && v@ == txn_fs(*self)[key@],
                None => !txn_fs(*self).contains_key(key@),
            },
    {
        let t = match self.wtxn.as_ref() {
            Some(t) => t,
            None => return Err(()),
        };
        let tab = t.open_table(redb::TableDefinition::<&[u8], &[u8]>::new("fs")).map_err(
            |_| (),
        )?;
        let r = match tab.get(key.as_slice()) {
            Ok(Some(g)) => Ok(Some(g.value().to_vec())),
            Ok(None) => Ok(None),
            Err(_) => Err(()),
        };
        drop(tab);
        r
    }

    /// Relies on redb's `Table::insert` under the open write transaction:
    /// the new mapping replaces any old one, whose value is handed back.
    #[verifier::external_body]
    pub fn txn_fs_insert(&mut self, key: &Vec<u8>, value: &Vec<u8>) -> (r: Result<
        Option<Vec<u8>>,
        (),
    >)
        requires
            txn_open(*old(self)),
        ensures
            txn_step(*old(self), *final(self)),
            txn_seq(*final(self)) == txn_seq(*old(self)),
            txn_ver(*final(self)) == txn_ver(*old(self)),
            r matches Ok(prev) ==> txn_fs(*final(self)) == txn_fs(*old(self)).insert(key@, value@)
                && match prev {
                Some(p) => txn_fs(*old(self)).contains_key(key@) && p@ == txn_fs(*old(self))[key@],
                None => !txn_fs(*old(self)).contains_key(key@),
            },
    {
        let t = match self.wtxn.as_ref() {
            Some(t) => t,
            None => return Err(()),
        };
        let mut tab = t.open_table(redb::TableDefinition::<&[u8], &[u8]>::new("fs")).map_err(
            |_| (),
        )?;
        let r = match tab.insert(key.as_slice(), value.as_slice()) {
            Ok(Some(g)) => Ok(Some(g.value().to_vec())),
            Ok(None) => Ok(None),
            Err(_) => Err(()),
        };
        drop(tab);
        r
    }

    /// Relies on redb's `Table::remove` under the open write transaction:
    /// the mapping is gone and any old value is handed back.
    #[verifier::external_body]
    pub fn txn_fs_remove(&mut self, key: &Vec<u8>) -> (r: Result<Option<Vec<u8>>, ()>)
        requires
            txn_open(*old(self)),
        ensures
            txn_step(*old(self), *final(self)),
            txn_seq(*final(self)) == txn_seq(*old(self)),
            txn_ver(*final(self)) == txn_ver(*old(self)),
            r matches Ok(prev) ==> txn_fs(*final(self)) == txn_fs(*old(self)).remove(key@)
                && match prev {
                Some(p) => txn_fs(*old(self)).contains_key(key@) && p@ == txn_fs(*old(self))[key@],
                None => !txn_fs(*old(self)).contains_key(key@),
            },
    {
        let t = match self.wtxn.as_ref() {
            Some(t) => t,
            None => return Err(()),
        };
        let mut tab = t.open_table(redb::TableDefinition::<&[u8], &[u8]>::new("fs")).map_err(
            |_| (),
        )?;
        let r = match tab.remove(key.as_slice()) {
            Ok(Some(g)) => Ok(Some(g.value().to_vec())),
            Ok(None) => Ok(None),
            Err(_) => Err(()),
        };
        drop(tab);
        r
    }

    /// Relies on redb's `Table::get` on the `seq` table under the open
    /// write transaction.
    #[verifier::external_body]
    pub fn txn_seq_get(&self, name: &str) -> (r: Result<Option<u64>, ()>)
        requires
            txn_open(*self),
        ensures
            r matches Ok(o) ==> match o {
                Some(v) => txn_seq(*self).contains_key(name@) && v == txn_seq(*self)[name@],
                None => !txn_seq(*self).contains_key(name@),
            },
    {
        let t = match self.wtxn.as_ref() {
            Some(t) => t,
            None => return Err(()),
        };
        let tab = t.open_table(redb::TableDefinition::<&str, u64>::new("seq")).map_err(|_| ())?;
        let r = match tab.get(name) {
            Ok(Some(g)) => Ok(Some(g.value())),
            Ok(None) => Ok(None),
            Err(_) => Err(()),
        };
        drop(tab);
        r
    }

    /// Relies on redb's `Table::insert` on the `seq` table under the open
    /// write transaction.
    #[verifier::external_body]
    pub fn txn_seq_insert(&mut self, name: &str, value: u64) -> (r: Result<(), ()>)
        requires
            txn_open(*old(self)),
        ensures
            txn_step(*old(self), *final(self)),
            txn_fs(*final(self)) == txn_fs(*old(self)),
            txn_ver(*final(self)) == txn_ver(*old(self)),
            r.is_ok() ==> txn_seq(*final(self)) == txn_seq(*old(self)).insert(name@, value),
    {
        let t = match self.wtxn.as_ref() {
            Some(t) => t,
            None => return Err(()),
        };
        let mut tab = t.open_table(redb::TableDefinition::<&str, u64>::new("seq")).map_err(
            |_| (),
        )?;
        let r = match tab.insert(name, value) {
            Ok(_) => Ok(()),
            Err(_) => Err(()),
        };
        drop(tab);
        r
    }

    /// Relies on redb's `ReadableTable::iter`: every committed row of
    /// the `fs` table, in ascending byte order of key, read from one
    /// snapshot.
    #[verifier::external_body]
    pub fn fs_all(&self) -> (r: Result<Vec<(Vec<u8>, Vec<u8>)>, ()>)
        ensures
            r matches Ok(rows) ==> {
                &&& forall|i: int, j: int|
                    0 <= i < j < rows.len() ==> lex_lt(rows[i].0@, rows[j].0@)
                &&& forall|i: int|
                    0 <= i < rows.len() ==> #[trigger] store_fs(*self).contains_key(rows[i].0@)
                        && rows[i].1@ == store_fs(*self)[rows[i].0@]
                &&& forall|k: Seq<u8>|
                    #[trigger] store_fs(*self).contains_key(k) ==> exists|i: int|
                        0 <= i < rows.len() && rows[i].0@ == k
            },
    {
        let t = self.db.begin_read().map_err(|_| ())?;
        let tab = t.open_table(redb::TableDefinition::<&[u8], &[u8]>::new("fs")).map_err(
            |_| (),
        )?;
        let iter = tab.iter().map_err(|_| ())?;
        iter.map(
            |it|
                it.map(|(k, v)| (k.value().to_vec(), v.value().to_vec())).map_err(|_| ()),
        ).collect()
    }

    /// Relies on redb's `WriteTransaction::open_table`: opening the
    /// three tables creates any that are missing, empty, and leaves
    /// every existing row in place.
    #[verifier::external_body]
    pub fn txn_touch_tables(&mut self) -> (r: Result<(), ()>)
        requires
            txn_open(*old(self)),
        ensures
            txn_step(*old(self), *final(self)),
            txn_fs(*final(self)) == txn_fs(*old(self)),
            txn_seq(*final(self)) == txn_seq(*old(self)),
            txn_ver(*final(self)) == txn_ver(*old(self)),
    {
        let t = self.wtxn.as_ref().ok_or(())?;
        t.open_table(redb::TableDefinition::<&[u8], &[u8]>::new("fs")).map_err(|_| ())?;
        t.open_table(redb::TableDefinition::<&str, u64>::new("seq")).map_err(|_| ())?;
        t.open_table(redb::TableDefinition::<&[u8], &[u8]>::new("ver")).map_err(|_| ())?;
        Ok(())
    }

    /// Relies on redb's `ReadableTable::iter`: every committed row of
    /// the `ver` table, in ascending byte order of key, read from one
    /// snapshot.
    #[verifier::external_body]
    pub fn ver_all(&self) -> (r: Result<Vec<(Vec<u8>, Vec<u8>)>, ()>)
        ensures
            r matches Ok(rows) ==> {
                &&& forall|i: int, j: int|
                    0 <= i < j < rows.len() ==> lex_lt(rows[i].0@, rows[j].0@)
                &&& forall|i: int|
                    0 <= i < rows.len() ==> #[trigger] store_ver(*self).contains_key(rows[i].0@)
                        && rows[i].1@ == store_ver(*self)[rows[i].0@]
                &&& forall|k: Seq<u8>|
                    #[trigger] store_ver(*self).contains_key(k) ==> exists|i: int|
                        0 <= i < rows.len() && rows[i].0@ == k
            },
    {
        let t = self.db.begin_read().map_err(|_| ())?;
        let tab = t.open_table(redb::TableDefinition::<&[u8], &[u8]>::new("ver")).map_err(
            |_| (),
        )?;
        let iter = tab.iter().map_err(|_| ())?;
        iter.map(
            |it|
                it.map(|(k, v)| (k.value().to_vec(), v.value().to_vec())).map_err(|_| ()),
        ).collect()
    }

    /// Relies on redb's `Table::get` on the `ver` table under the open
    /// write transaction.
    #[verifier::external_body]
    pub fn txn_ver_get(&self, key: &Vec<u8>) -> (r: Result<Option<Vec<u8>>, ()>)
        requires
            txn_open(*self),
        ensures
            r matches Ok(o) ==> match o {
                Some(v) => txn_ver(*self).contains_key(key@) && v@ == txn_ver(*self)[key@],
                None => !txn_ver(*self).contains_key(key@),
            },
    {
        let t = match self.wtxn.as_ref() {
            Some(t) => t,
            None => return Err(()),
        };
        let tab = t.open_table(redb::TableDefinition::<&[u8], &[u8]>::new("ver")).map_err(
            |_| (),
        )?;
        let r = match tab.get(key.as_slice()) {
            Ok(Some(g)) => Ok(Some(g.value().to_vec())),
            Ok(None) => Ok(None),
            Err(_) => Err(()),
        };
        drop(tab);
        r
    }

    /// Relies on redb's `Table::insert` on the `ver` table under the open
    /// write transaction.
    #[verifier::external_body]
    pub fn txn_ver_insert(&mut self, key: &Vec<u8>, value: &Vec<u8>) -> (r: Result<(), ()>)
        requires
            txn_open(*old(self)),
        ensures
            txn_step(*old(self), *final(self)),
            txn_fs(*final(self)) == txn_fs(*old(self)),
            txn_seq(*final(self)) == txn_seq(*old(self)),
            r.is_ok() ==> txn_ver(*final(self)) == txn_ver(*old(self)).insert(key@, value@),
    {
        let t = match self.wtxn.as_ref() {
            Some(t) => t,
            None => return Err(()),
        };
        let mut tab = t.open_table(redb::TableDefinition::<&[u8], &[u8]>::new("ver")).map_err(
            |_| (),
        )?;
        let r = match tab.insert(key.as_slice(), value.as_slice()) {
            Ok(_) => Ok(()),
            Err(_) => Err(()),
        };
        drop(tab);
        r
    }

    /// Relies on redb's `Table::remove` on the `ver` table under the open
    /// write transaction.
    #[verifier::external_body]
    pub fn txn_ver_remove(&mut self, key: &Vec<u8>) -> (r: Result<Option<Vec<u8>>, ()>)
        requires
            txn_open(*old(self)),
        ensures
            txn_step(*old(self), *final(self)),
            txn_fs(*final(self)) == txn_fs(*old(self)),
            txn_seq(*final(self)) == txn_seq(*old(self)),
            r matches Ok(prev) ==> txn_ver(*final(self)) == txn_ver(*old(self)).remove(key@)
                && match prev {
                Some(p) => txn_ver(*old(self)).contains_key(key@) && p@ == txn_ver(
                    *old(self),
                )[key@],
                None => !txn_ver(*old(self)).contains_key(key@),
            },
    {
        let t = match self.wtxn.as_ref() {
            Some(t) => t,
            None => return Err(()),
        };
        let mut tab = t.open_table(redb::TableDefinition::<&[u8], &[u8]>::new("ver")).map_err(
            |_| (),
        )?;
        let r = match tab.remove(key.as_slice()) {
            Ok(Some(g)) => Ok(Some(g.value().to_vec())),
            Ok(None) => Ok(None),
            Err(_) => Err(()),
        };
        drop(tab);
        r
    }
}

} // verus!
