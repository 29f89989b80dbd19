//! The record shape shared by the in-memory table and the on-disk log:
//! a key, an optional value (absent exactly on a tombstone), the mutation's
//! microsecond timestamp, and the tombstone flag.

use vstd::prelude::*;

verus! {

/// Mathematical model of one record, shared by every component's contracts.
pub ghost struct Record {
    pub key: Seq<u8>,
    pub value: Option<Seq<u8>>,
    pub timestamp: u128,
    pub deleted: bool,
}

/// A record carries a value exactly when it is not a tombstone.
pub open spec fn record_wf(r: Record) -> bool {
    r.deleted <==> r.value is None
}

/// A value record, as `set` builds it.
pub open spec fn set_record(key: Seq<u8>, value: Seq<u8>, timestamp: u128) -> Record {
    Record { key, value: Some(value), timestamp, deleted: false }
}

/// A tombstone record, as `delete` builds it.
pub open spec fn tombstone_record(key: Seq<u8>, timestamp: u128) -> Record {
    Record { key, value: None, timestamp, deleted: true }
}

/// Length of the value, or 0 for a tombstone.
pub open spec fn value_len(v: Option<Seq<u8>>) -> int {
    match v {
        Some(s) => s.len() as int,
        None => 0,
    }
}

/// What one record adds to the table's size counter when newly inserted:
/// key and value bytes plus 16 bytes of timestamp and 1 tombstone byte.
pub open spec fn record_size(r: Record) -> int {
    r.key.len() + value_len(r.value) + 17
}

/// One entry of the in-memory sorted table.
pub struct MemTableEntry {
    pub key: Vec<u8>,
    pub value: Option<Vec<u8>>,
    pub timestamp: u128,
    pub deleted: bool,
}

impl View for MemTableEntry {
    type V = Record;

    open spec fn view(&self) -> Record {
        Record {
            key: self.key@,
            value: match self.value {
                Some(v) => Some(v@),
                None => None,
            },
            timestamp: self.timestamp,
            deleted: self.deleted,
        }
    }
}

/// One record as decoded from, or bound for, a write-ahead-log segment.
pub struct WALEntry {
    pub key: Vec<u8>,
    pub value: Option<Vec<u8>>,
    pub timestamp: u128,
    pub deleted: bool,
}

impl View for WALEntry {
    type V = Record;

    open spec fn view(&self) -> Record {
        Record {
            key: self.key@,
            value: match self.value {
                Some(v) => Some(v@),
                None => None,
            },
            timestamp: self.timestamp,
            deleted: self.deleted,
        }
    }
}

/// A successful point read: a live (non-tombstone) record handed to callers.
pub struct DatabaseEntry {
    key: Vec<u8>,
    value: Vec<u8>,
    timestamp: u128,
}

impl View for DatabaseEntry {
    type V = Record;

    closed spec fn view(&self) -> Record {
        Record {
            key: self.key@,
            value: Some(self.value@),
            timestamp: self.timestamp,
            deleted: false,
        }
    }
}

impl DatabaseEntry {
    pub fn key(&self) -> (r: &[u8])
        ensures
            r@ == self@.key,
    {
        self.key.as_slice()
    }

    pub fn value(&self) -> (r: &[u8])
        ensures
            Some(r@) == self@.value,
    {
        self.value.as_slice()
    }

    pub fn timestamp(&self) -> (r: u128)
        ensures
            r == self@.timestamp,
    {
        self.timestamp
    }

    pub(crate) fn from_parts(key: Vec<u8>, value: Vec<u8>, timestamp: u128) -> (r: DatabaseEntry)
        ensures
            r@ == set_record(key@, value@, timestamp),
    {
        DatabaseEntry { key, value, timestamp }
    }
}

} // verus!
