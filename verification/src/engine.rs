//! The engine facade: one sorted record set and the bytes of one open log
//! segment, scoped to one data directory. Every mutation is appended to the
//! log bytes before it touches memory — the write-ahead ordering — and the
//! surrounding storage layer persists and flushes the appended bytes before
//! acknowledging a caller. Reads consult memory only: nothing here goes back
//! to disk after startup.

use vstd::prelude::*;
use vstd::slice::slice_to_vec;

use crate::codec::{encode_delete, encode_set, spec_encode};
use crate::memtable::{
    lemma_spec_find_member, spec_find, spec_put, table_size, table_wf, MemTable,
};
use crate::record::{set_record, tombstone_record, DatabaseEntry, Record};
use crate::recovery::{all_records, recover_parts, spec_encode_stream, spec_replay, total_len};

verus! {

/// The outcome of a point read: a live record; a key whose current record is
/// a tombstone — distinct from a key never written, so a caller can never
/// mistake a deleted key's absent value for a present one; or no record.
pub enum ReadOutcome {
    Found(DatabaseEntry),
    Deleted,
    NotFound,
}

/// Why an operation against durable storage failed. The in-memory core
/// cannot fail; the storage layer around it raises these, keeping a failed
/// log append distinct from a failed flush and from a failed directory scan
/// at startup.
#[derive(Clone, Copy, Debug, PartialEq, Eq)]
pub enum StorageError {
    AppendFailed,
    FlushFailed,
    DirectoryScanFailed,
}

/// Ghost model of the engine: the record set and the open segment's bytes.
pub ghost struct DatabaseModel {
    pub table: Seq<Record>,
    pub log: Seq<u8>,
}

/// The engine facade.
pub struct Database {
    mem_table: MemTable,
    log: Vec<u8>,
}

impl View for Database {
    type V = DatabaseModel;

    closed spec fn view(&self) -> DatabaseModel {
        DatabaseModel { table: self.mem_table@, log: self.log@ }
    }
}

impl Database {
    /// The record set is well-formed and its size counter exact.
    pub closed spec fn wf(&self) -> bool {
        self.mem_table.wf()
    }

    /// A fresh engine: no records, an empty open segment.
    pub fn new() -> (r: Database)
        ensures
            r.wf(),
            r@.table == Seq::<Record>::empty(),
            r@.log == Seq::<u8>::empty(),
    {
        let r = Database { mem_table: MemTable::new(), log: Vec::new() };
        proof {
            assert(r@.log =~= Seq::<u8>::empty());
        }
        r
    }

    /// Startup: one engine rebuilt from the historical segments' bytes,
    /// given in chronological (filename-lexicographic) order. The record set
    /// is exactly the replay of every record of every segment, concatenated
    /// in that order, into a fresh set; the open segment starts as the
    /// consolidated re-serialization of that whole stream, which the storage
    /// layer persists as the one fresh segment before deleting the old ones.
    pub fn recover(segments: &Vec<Vec<u8>>) -> (r: Database)
        requires
            total_len(segments.deep_view()) <= usize::MAX,
        ensures
            r.wf(),
            r@.table == spec_replay(Seq::<Record>::empty(), all_records(segments.deep_view())),
            r@.log == spec_encode_stream(all_records(segments.deep_view())),
    {
        let (mem_table, log) = recover_parts(segments);
        Database { mem_table, log }
    }

    /// What the invariant gives callers about the model.
    pub proof fn lemma_wf_table(&self)
        requires
            self.wf(),
        ensures
            table_wf(self@.table),
            table_size(self@.table) <= usize::MAX,
    {
    }

    /// The advisory size of the record set.
    pub fn size(&self) -> (r: usize)
        requires
            self.wf(),
        ensures
            r == table_size(self@.table),
    {
        self.mem_table.size()
    }

    /// The open segment's bytes, for the storage layer to persist.
    pub fn log_bytes(&self) -> (r: &Vec<u8>)
        ensures
            r@ == self@.log,
    {
        &self.log
    }

    /// Point read, from memory alone: the key's live record, a distinct
    /// "key is deleted" outcome for a tombstone, or nothing.
    pub fn read(&self, key: &[u8]) -> (r: ReadOutcome)
        requires
            self.wf(),
        ensures
            match spec_find(self@.table, key@) {
                None => r is NotFound,
                Some(rec) => if rec.deleted {
                    r is Deleted
                } else {
                    r matches ReadOutcome::Found(e) && e@ == rec
                },
            },
    {
        proof {
            lemma_spec_find_member(self@.table, key@);
        }
        match self.mem_table.get(key) {
            Some(entry) => match &entry.value {
                Some(v) => {
                    let e = DatabaseEntry::from_parts(
                        slice_to_vec(entry.key.as_slice()),
                        slice_to_vec(v.as_slice()),
                        entry.timestamp,
                    );
                    ReadOutcome::Found(e)
                },
                None => ReadOutcome::Deleted,
            },
            None => ReadOutcome::NotFound,
        }
    }

    /// Write a value: encode the record, append it to the open segment's
    /// bytes — to be made durable before the write is acknowledged — and
    /// only then apply it to the record set.
    pub fn set(&mut self, key: &[u8], value: &[u8], timestamp: u128)
        requires
            old(self).wf(),
            table_size(spec_put(old(self)@.table, set_record(key@, value@, timestamp)))
                <= usize::MAX,
        ensures
            final(self).wf(),
            final(self)@.table == spec_put(
                old(self)@.table,
                set_record(key@, value@, timestamp),
            ),
            final(self)@.log == old(self)@.log + spec_encode(
                set_record(key@, value@, timestamp),
            ),
    {
        let mut enc = encode_set(key, value, timestamp);
        self.log.append(&mut enc);
        self.mem_table.set(key, value, timestamp);
    }

    /// Delete a key: append the tombstone's encoding to the open segment's
    /// bytes, then apply the tombstone to the record set.
    pub fn delete(&mut self, key: &[u8], timestamp: u128)
        requires
            old(self).wf(),
            table_size(spec_put(old(self)@.table, tombstone_record(key@, timestamp)))
                <= usize::MAX,
        ensures
            final(self).wf(),
            final(self)@.table == spec_put(old(self)@.table, tombstone_record(key@, timestamp)),
            final(self)@.log == old(self)@.log + spec_encode(tombstone_record(key@, timestamp)),
    {
        let mut enc = encode_delete(key, timestamp);
        self.log.append(&mut enc);
        self.mem_table.delete(key, timestamp);
    }
}

} // verus!
