//! The sorted in-memory record set: the latest value or tombstone per key,
//! kept strictly sorted by key with no duplicate keys, plus a running size
//! counter (advisory bookkeeping for a future capacity-triggered flush;
//! nothing reads it to take action in this scope).

use vstd::prelude::*;
use vstd::slice::slice_to_vec;

use crate::lex::{
    compare_bytes, lemma_lex_lt_asymmetric, lemma_lex_lt_irreflexive, lemma_lex_lt_total,
    lemma_lex_lt_transitive, lex_lt, KeyOrder,
};
use crate::record::{
    record_size, record_wf, set_record, tombstone_record, value_len, MemTableEntry, Record,
};

verus! {

/// Keys strictly ascend: sorted and duplicate-free in one statement.
pub open spec fn sorted_keys(s: Seq<Record>) -> bool {
    forall|i: int, j: int| 0 <= i < j < s.len() ==> lex_lt(s[i].key, s[j].key)
}

/// Every entry well-formed and the keys strictly sorted.
pub open spec fn table_wf(s: Seq<Record>) -> bool {
    &&& sorted_keys(s)
    &&& forall|i: int| 0 <= i < s.len() ==> record_wf(#[trigger] s[i])
}

/// The size counter's intended value: the sum of every entry's footprint.
pub open spec fn table_size(s: Seq<Record>) -> int
    decreases s.len(),
{
    if s.len() == 0 {
        0
    } else {
        record_size(s[0]) + table_size(s.drop_first())
    }
}

/// Replace-or-insert of one record into a key-sorted sequence: the single
/// mutation shape shared by `set` and `delete`.
pub open spec fn spec_put(s: Seq<Record>, r: Record) -> Seq<Record>
    decreases s.len(),
{
    if s.len() == 0 {
        seq![r]
    } else if lex_lt(r.key, s[0].key) {
        seq![r] + s
    } else if r.key == s[0].key {
        seq![r] + s.drop_first()
    } else {
        seq![s[0]] + spec_put(s.drop_first(), r)
    }
}

/// The current record for a key, if any.
pub open spec fn spec_find(s: Seq<Record>, k: Seq<u8>) -> Option<Record>
    decreases s.len(),
{
    if s.len() == 0 {
        None
    } else if s[0].key == k {
        Some(s[0])
    } else {
        spec_find(s.drop_first(), k)
    }
}

pub proof fn lemma_table_size_nonneg(s: Seq<Record>)
    ensures
        table_size(s) >= 0,
    decreases s.len(),
{
    if s.len() > 0 {
        lemma_table_size_nonneg(s.drop_first());
    }
}

/// One entry's footprint never exceeds the whole table's size.
pub proof fn lemma_record_size_le_table(s: Seq<Record>, i: int)
    requires
        0 <= i < s.len(),
    ensures
        record_size(s[i]) <= table_size(s),
    decreases s.len(),
{
    if i == 0 {
        lemma_table_size_nonneg(s.drop_first());
    } else {
        lemma_record_size_le_table(s.drop_first(), i - 1);
    }
}

proof fn lemma_table_size_cons(r: Record, s: Seq<Record>)
    ensures
        table_size(seq![r] + s) == record_size(r) + table_size(s),
{
    let t = seq![r] + s;
    assert(t.len() > 0);
    assert(t[0] == r);
    assert(t.drop_first() =~= s);
}

/// Where a record for the key exists, a find on a sorted sequence returns
/// the entry that holds it.
pub proof fn lemma_spec_find_present(s: Seq<Record>, i: int)
    requires
        sorted_keys(s),
        0 <= i < s.len(),
    ensures
        spec_find(s, s[i].key) == Some(s[i]),
    decreases s.len(),
{
    if i > 0 {
        assert(lex_lt(s[0].key, s[i].key));
        lemma_lex_lt_irreflexive(s[0].key);
        assert(s[0].key != s[i].key) by {
            if s[0].key == s[i].key {
                assert(lex_lt(s[0].key, s[0].key));
            }
        }
        lemma_spec_find_present(s.drop_first(), i - 1);
        assert(s.drop_first()[i - 1] == s[i]);
        assert(forall|p: int, q: int|
            0 <= p < q < s.drop_first().len() ==> lex_lt(
                s.drop_first()[p].key,
                s.drop_first()[q].key,
            ));
    }
}

/// Where no entry holds the key, a find returns nothing.
pub proof fn lemma_spec_find_absent(s: Seq<Record>, k: Seq<u8>)
    requires
        forall|i: int| 0 <= i < s.len() ==> (#[trigger] s[i]).key != k,
    ensures
        spec_find(s, k) is None,
    decreases s.len(),
{
    if s.len() > 0 {
        assert(forall|i: int|
            0 <= i < s.drop_first().len() ==> (#[trigger] s.drop_first()[i]) == s[i + 1]);
        lemma_spec_find_absent(s.drop_first(), k);
    }
}

/// A put of a record whose key stands at `i` replaces that entry in place.
pub proof fn lemma_spec_put_found(s: Seq<Record>, r: Record, i: int)
    requires
        sorted_keys(s),
        0 <= i < s.len(),
        s[i].key == r.key,
    ensures
        spec_put(s, r) == s.update(i, r),
    decreases s.len(),
{
    if i == 0 {
        lemma_lex_lt_irreflexive(r.key);
        assert(!lex_lt(r.key, s[0].key));
        assert(seq![r] + s.drop_first() =~= s.update(0, r));
    } else {
        assert(lex_lt(s[0].key, s[i].key));
        lemma_lex_lt_asymmetric(r.key, s[0].key);
        assert(!lex_lt(r.key, s[0].key));
        lemma_lex_lt_irreflexive(s[0].key);
        assert(r.key != s[0].key) by {
            if r.key == s[0].key {
                assert(lex_lt(s[0].key, s[0].key));
            }
        }
        assert(forall|p: int, q: int|
            0 <= p < q < s.drop_first().len() ==> lex_lt(
                s.drop_first()[p].key,
                s.drop_first()[q].key,
            ));
        assert(s.drop_first()[i - 1] == s[i]);
        lemma_spec_put_found(s.drop_first(), r, i - 1);
        assert(seq![s[0]] + s.drop_first().update(i - 1, r) =~= s.update(i, r));
    }
}

/// A put of a record whose key is absent inserts it at its sort position.
pub proof fn lemma_spec_put_absent(s: Seq<Record>, r: Record, i: int)
    requires
        sorted_keys(s),
        0 <= i <= s.len(),
        forall|j: int| 0 <= j < i ==> lex_lt((#[trigger] s[j]).key, r.key),
        forall|j: int| i <= j < s.len() ==> lex_lt(r.key, (#[trigger] s[j]).key),
    ensures
        spec_put(s, r) == s.insert(i, r),
    decreases s.len(),
{
    if s.len() == 0 {
        assert(seq![r] =~= s.insert(0, r));
    } else if i == 0 {
        assert(lex_lt(r.key, s[0].key));
        assert(seq![r] + s =~= s.insert(0, r));
    } else {
        assert(lex_lt(s[0].key, r.key));
        lemma_lex_lt_asymmetric(s[0].key, r.key);
        lemma_lex_lt_irreflexive(s[0].key);
        assert(r.key != s[0].key) by {
            if r.key == s[0].key {
                assert(lex_lt(s[0].key, s[0].key));
            }
        }
        assert(forall|p: int, q: int|
            0 <= p < q < s.drop_first().len() ==> lex_lt(
                s.drop_first()[p].key,
                s.drop_first()[q].key,
            ));
        assert(forall|j: int|
            0 <= j < s.drop_first().len() ==> (#[trigger] s.drop_first()[j]) == s[j + 1]);
        lemma_spec_put_absent(s.drop_first(), r, i - 1);
        assert(seq![s[0]] + s.drop_first().insert(i - 1, r) =~= s.insert(i, r));
    }
}

/// Every entry of a put is the new record or one of the old entries.
pub proof fn lemma_spec_put_membership(s: Seq<Record>, r: Record)
    ensures
        forall|i: int|
            0 <= i < spec_put(s, r).len() ==> (#[trigger] spec_put(s, r)[i]) == r || s.contains(
                spec_put(s, r)[i],
            ),
        spec_put(s, r).len() >= 1,
    decreases s.len(),
{
    if s.len() == 0 {
    } else if lex_lt(r.key, s[0].key) {
        assert(forall|i: int| 1 <= i < (seq![r] + s).len() ==> (seq![r] + s)[i] == s[i - 1]);
    } else if r.key == s[0].key {
        assert(forall|i: int|
            1 <= i < (seq![r] + s.drop_first()).len() ==> (seq![r] + s.drop_first())[i] == s[i]);
    } else {
        lemma_spec_put_membership(s.drop_first(), r);
        let t = seq![s[0]] + spec_put(s.drop_first(), r);
        assert forall|i: int| 0 <= i < t.len() implies t[i] == r || s.contains(t[i]) by {
            if i == 0 {
                assert(s[0] == t[0]);
                assert(s.contains(s[0]));
            } else {
                let u = spec_put(s.drop_first(), r);
                assert(t[i] == u[i - 1]);
                if u[i - 1] != r {
                    assert(s.drop_first().contains(u[i - 1]));
                    let j = choose|j: int|
                        0 <= j < s.drop_first().len() && s.drop_first()[j] == u[i - 1];
                    assert(s[j + 1] == u[i - 1]);
                    assert(s.contains(s[j + 1]));
                }
            }
        }
    }
}

/// A put keeps the table well-formed: strictly sorted keys, no duplicate
/// keys, and well-formed entries.
pub proof fn lemma_spec_put_wf(s: Seq<Record>, r: Record)
    requires
        table_wf(s),
        record_wf(r),
    ensures
        table_wf(spec_put(s, r)),
    decreases s.len(),
{
    if s.len() == 0 {
    } else if lex_lt(r.key, s[0].key) {
        let t = seq![r] + s;
        assert forall|i: int, j: int| 0 <= i < j < t.len() implies lex_lt(t[i].key, t[j].key) by {
            if i == 0 {
                if j == 1 {
                } else {
                    lemma_lex_lt_transitive(r.key, s[0].key, s[j - 1].key);
                }
            }
        }
        assert(forall|i: int| 0 <= i < t.len() ==> record_wf(#[trigger] t[i]));
    } else if r.key == s[0].key {
        let t = seq![r] + s.drop_first();
        assert forall|i: int, j: int| 0 <= i < j < t.len() implies lex_lt(t[i].key, t[j].key) by {
            if i == 0 {
                assert(t[j] == s[j]);
                assert(lex_lt(s[0].key, s[j].key));
            } else {
                assert(t[i] == s[i]);
                assert(t[j] == s[j]);
            }
        }
        assert(forall|i: int| 0 <= i < t.len() ==> record_wf(#[trigger] t[i]));
    } else {
        lemma_lex_lt_total(r.key, s[0].key);
        assert(lex_lt(s[0].key, r.key));
        assert(forall|p: int, q: int|
            0 <= p < q < s.drop_first().len() ==> lex_lt(
                s.drop_first()[p].key,
                s.drop_first()[q].key,
            ));
        assert(forall|i: int|
            0 <= i < s.drop_first().len() ==> record_wf(#[trigger] s.drop_first()[i]));
        lemma_spec_put_wf(s.drop_first(), r);
        lemma_spec_put_membership(s.drop_first(), r);
        let u = spec_put(s.drop_first(), r);
        let t = seq![s[0]] + u;
        assert forall|i: int, j: int| 0 <= i < j < t.len() implies lex_lt(t[i].key, t[j].key) by {
            if i == 0 {
                assert(t[j] == u[j - 1]);
                if u[j - 1] == r {
                } else {
                    assert(s.drop_first().contains(u[j - 1]));
                    let m = choose|m: int|
                        0 <= m < s.drop_first().len() && s.drop_first()[m] == u[j - 1];
                    assert(s[m + 1] == u[j - 1]);
                    assert(lex_lt(s[0].key, s[m + 1].key));
                }
            } else {
                assert(t[i] == u[i - 1]);
                assert(t[j] == u[j - 1]);
            }
        }
        assert forall|i: int| 0 <= i < t.len() implies record_wf(#[trigger] t[i]) by {
            if i > 0 {
                assert(t[i] == u[i - 1]);
            }
        }
    }
}

/// After a put, the written key reads as the written record and every other
/// key reads as before.
pub proof fn lemma_find_after_put(s: Seq<Record>, r: Record, k: Seq<u8>)
    requires
        sorted_keys(s),
    ensures
        spec_find(spec_put(s, r), k) == if k == r.key {
            Some(r)
        } else {
            spec_find(s, k)
        },
    decreases s.len(),
{
    if s.len() == 0 {
        let t = seq![r];
        assert(spec_put(s, r) == t);
        assert(t[0] == r);
        assert(t.drop_first() =~= s);
    } else if lex_lt(r.key, s[0].key) {
        let t = seq![r] + s;
        assert(t[0] == r);
        assert(t.drop_first() =~= s);
        lemma_lex_lt_irreflexive(r.key);
        assert(r.key != s[0].key) by {
            if r.key == s[0].key {
                assert(lex_lt(r.key, r.key));
            }
        }
    } else if r.key == s[0].key {
        let t = seq![r] + s.drop_first();
        assert(t[0] == r);
        assert(t.drop_first() =~= s.drop_first());
    } else {
        lemma_lex_lt_total(r.key, s[0].key);
        assert(lex_lt(s[0].key, r.key));
        assert(forall|p: int, q: int|
            0 <= p < q < s.drop_first().len() ==> lex_lt(
                s.drop_first()[p].key,
                s.drop_first()[q].key,
            ));
        lemma_find_after_put(s.drop_first(), r, k);
        let t = seq![s[0]] + spec_put(s.drop_first(), r);
        assert(t[0] == s[0]);
        assert(t.drop_first() =~= spec_put(s.drop_first(), r));
        lemma_lex_lt_irreflexive(s[0].key);
        assert(s[0].key != r.key) by {
            if s[0].key == r.key {
                assert(lex_lt(s[0].key, s[0].key));
            }
        }
    }
}

/// Exact effect of a put on the size counter: the new record's footprint
/// comes in, a replaced record's footprint goes out.
pub proof fn lemma_spec_put_size(s: Seq<Record>, r: Record)
    requires
        sorted_keys(s),
    ensures
        table_size(spec_put(s, r)) == table_size(s) + record_size(r) - match spec_find(s, r.key) {
            Some(e) => record_size(e),
            None => 0,
        },
    decreases s.len(),
{
    if s.len() == 0 {
        lemma_table_size_cons(r, Seq::<Record>::empty());
        assert(seq![r] =~= seq![r] + Seq::<Record>::empty());
    } else if lex_lt(r.key, s[0].key) {
        lemma_table_size_cons(r, s);
        assert forall|i: int| 0 <= i < s.len() implies (#[trigger] s[i]).key != r.key by {
            if i == 0 {
                lemma_lex_lt_irreflexive(r.key);
                if s[0].key == r.key {
                    assert(lex_lt(r.key, r.key));
                }
            } else {
                lemma_lex_lt_transitive(r.key, s[0].key, s[i].key);
                lemma_lex_lt_irreflexive(r.key);
                if s[i].key == r.key {
                    assert(lex_lt(r.key, r.key));
                }
            }
        }
        lemma_spec_find_absent(s, r.key);
    } else if r.key == s[0].key {
        lemma_table_size_cons(r, s.drop_first());
        assert(table_size(s) == record_size(s[0]) + table_size(s.drop_first()));
    } else {
        lemma_lex_lt_total(r.key, s[0].key);
        assert(lex_lt(s[0].key, r.key));
        assert(forall|p: int, q: int|
            0 <= p < q < s.drop_first().len() ==> lex_lt(
                s.drop_first()[p].key,
                s.drop_first()[q].key,
            ));
        lemma_spec_put_size(s.drop_first(), r);
        lemma_table_size_cons(s[0], spec_put(s.drop_first(), r));
        assert(table_size(s) == record_size(s[0]) + table_size(s.drop_first()));
    }
}

/// What a find returns is one of the table's entries, for the asked key.
pub proof fn lemma_spec_find_member(s: Seq<Record>, k: Seq<u8>)
    ensures
        match spec_find(s, k) {
            Some(r) => s.contains(r) && r.key == k,
            None => true,
        },
    decreases s.len(),
{
    if s.len() > 0 {
        if s[0].key == k {
            assert(s.contains(s[0]));
        } else {
            lemma_spec_find_member(s.drop_first(), k);
            match spec_find(s.drop_first(), k) {
                Some(r) => {
                    let j = choose|j: int| 0 <= j < s.drop_first().len() && s.drop_first()[j] == r;
                    assert(s[j + 1] == r);
                    assert(s.contains(s[j + 1]));
                },
                None => {},
            }
        }
    }
}

/// After writing a value for a key, the table's record for that key is that
/// value record: not deleted, carrying the written value and timestamp.
pub proof fn lemma_write_then_lookup(s: Seq<Record>, key: Seq<u8>, value: Seq<u8>, timestamp: u128)
    requires
        sorted_keys(s),
    ensures
        spec_find(spec_put(s, set_record(key, value, timestamp)), key) == Some(
            set_record(key, value, timestamp),
        ),
{
    lemma_find_after_put(s, set_record(key, value, timestamp), key);
}

/// After deleting a key, the table's record for that key is a tombstone:
/// deleted, with no value.
pub proof fn lemma_delete_then_lookup(s: Seq<Record>, key: Seq<u8>, timestamp: u128)
    requires
        sorted_keys(s),
    ensures
        spec_find(spec_put(s, tombstone_record(key, timestamp)), key) == Some(
            tombstone_record(key, timestamp),
        ),
{
    lemma_find_after_put(s, tombstone_record(key, timestamp), key);
}

/// The sorted in-memory record set, with its advisory size counter.
pub struct MemTable {
    entries: Vec<MemTableEntry>,
    size: usize,
}

impl View for MemTable {
    type V = Seq<Record>;

    closed spec fn view(&self) -> Seq<Record> {
        self.entries@.map_values(|e: MemTableEntry| e@)
    }
}

impl MemTable {
    /// The size counter's value.
    pub closed spec fn spec_size(&self) -> int {
        self.size as int
    }

    /// The table invariant: strictly sorted, duplicate-free keys; every
    /// entry well-formed; the size counter exact and within machine range.
    pub open spec fn wf(&self) -> bool {
        &&& table_wf(self@)
        &&& self.spec_size() == table_size(self@)
        &&& table_size(self@) <= usize::MAX
    }

    pub fn new() -> (r: MemTable)
        ensures
            r.wf(),
            r@ == Seq::<Record>::empty(),
    {
        let r = MemTable { entries: Vec::new(), size: 0 };
        proof {
            assert(r@ =~= Seq::<Record>::empty());
        }
        r
    }

    /// The advisory size counter, for a caller watching capacity.
    pub fn size(&self) -> (r: usize)
        requires
            self.wf(),
        ensures
            r == table_size(self@),
    {
        self.size
    }

    /// Binary search by key: the entry's position, or the insertion point
    /// that keeps the keys sorted.
    fn get_index(&self, key: &[u8]) -> (r: Result<usize, usize>)
        requires
            self.wf(),
        ensures
            match r {
                Ok(i) => i < self@.len() && (#[trigger] self@[i as int]).key == key@,
                Err(i) => {
                    &&& i <= self@.len()
                    &&& forall|j: int| 0 <= j < i ==> lex_lt((#[trigger] self@[j]).key, key@)
                    &&& forall|j: int|
                        i <= j < self@.len() ==> lex_lt(key@, (#[trigger] self@[j]).key)
                },
            },
    {
        let mut lo: usize = 0;
        let mut hi: usize = self.entries.len();
        while lo < hi
            invariant
                self.wf(),
                lo <= hi <= self@.len(),
                self@.len() == self.entries@.len(),
                forall|j: int| 0 <= j < lo ==> lex_lt((#[trigger] self@[j]).key, key@),
                forall|j: int| hi <= j < self@.len() ==> lex_lt(key@, (#[trigger] self@[j]).key),
            decreases hi - lo,
        {
            let mid: usize = lo + (hi - lo) / 2;
            proof {
                assert(self@[mid as int] == self.entries@[mid as int]@);
            }
            match compare_bytes(self.entries[mid].key.as_slice(), key) {
                KeyOrder::Less => {
                    proof {
                        assert(lex_lt(self@[mid as int].key, key@));
                        assert forall|j: int| 0 <= j < mid + 1 implies lex_lt(
                            (#[trigger] self@[j]).key,
                            key@,
                        ) by {
                            if j < mid {
                                lemma_lex_lt_transitive(
                                    self@[j].key,
                                    self@[mid as int].key,
                                    key@,
                                );
                            }
                        }
                    }
                    lo = mid + 1;
                }
                KeyOrder::Greater => {
                    proof {
                        assert(lex_lt(key@, self@[mid as int].key));
                        assert forall|j: int| mid <= j < self@.len() implies lex_lt(
                            key@,
                            (#[trigger] self@[j]).key,
                        ) by {
                            if j > mid {
                                lemma_lex_lt_transitive(
                                    key@,
                                    self@[mid as int].key,
                                    self@[j].key,
                                );
                            }
                        }
                    }
                    hi = mid;
                }
                KeyOrder::Equal => {
                    return Ok(mid);
                }
            }
        }
        Err(lo)
    }

    /// Write a value record for the key: replace the key's record in place,
    /// or insert a new entry at its sort position, and keep the size counter
    /// exact.
    pub fn set(&mut self, key: &[u8], value: &[u8], timestamp: u128)
        requires
            old(self).wf(),
            table_size(spec_put(old(self)@, set_record(key@, value@, timestamp))) <= usize::MAX,
        ensures
            final(self).wf(),
            final(self)@ == spec_put(old(self)@, set_record(key@, value@, timestamp)),
    {
        let ghost r = set_record(key@, value@, timestamp);
        let entry = MemTableEntry {
            key: slice_to_vec(key),
            value: Some(slice_to_vec(value)),
            timestamp,
            deleted: false,
        };
        proof {
            assert(entry@ == r);
        }
        self.put_entry(entry, Ghost(r));
    }

    /// Write a tombstone for the key, with the same replace-or-insert
    /// mechanics as `set`. The tombstone is retained: no physical removal
    /// happens here, a later compaction (out of scope) decides that.
    pub fn delete(&mut self, key: &[u8], timestamp: u128)
        requires
            old(self).wf(),
            table_size(spec_put(old(self)@, tombstone_record(key@, timestamp))) <= usize::MAX,
        ensures
            final(self).wf(),
            final(self)@ == spec_put(old(self)@, tombstone_record(key@, timestamp)),
    {
        let ghost r = tombstone_record(key@, timestamp);
        let entry = MemTableEntry {
            key: slice_to_vec(key),
            value: None,
            timestamp,
            deleted: true,
        };
        proof {
            assert(entry@ == r);
        }
        self.put_entry(entry, Ghost(r));
    }

    /// Replace-or-insert of one well-formed entry, shared by `set` and
    /// `delete`.
    fn put_entry(&mut self, entry: MemTableEntry, r: Ghost<Record>)
        requires
            old(self).wf(),
            entry@ == r@,
            table_size(spec_put(old(self)@, r@)) <= usize::MAX,
            record_wf(r@),
        ensures
            final(self).wf(),
            final(self)@ == spec_put(old(self)@, r@),
    {
        proof {
            lemma_spec_put_wf(old(self)@, r@);
            lemma_spec_put_size(old(self)@, r@);
            lemma_table_size_nonneg(old(self)@);
        }
        let new_vlen: usize = match &entry.value {
            Some(v) => v.len(),
            None => 0,
        };
        let key_len: usize = entry.key.len();
        match self.get_index(entry.key.as_slice()) {
            Ok(idx) => {
                proof {
                    lemma_spec_find_present(self@, idx as int);
                    lemma_spec_put_found(self@, r@, idx as int);
                    lemma_record_size_le_table(self@, idx as int);
                }
                let old_vlen: usize = match &self.entries[idx].value {
                    Some(v) => v.len(),
                    None => 0,
                };
                proof {
                    assert(value_len(self@[idx as int].value) == old_vlen as int);
                    assert(self@[idx as int].key.len() == key_len as int);
                }
                self.size = self.size - old_vlen + new_vlen;
                self.entries.remove(idx);
                self.entries.insert(idx, entry);
                proof {
                    assert(self@ =~= old(self)@.update(idx as int, r@));
                }
            },
            Err(idx) => {
                proof {
                    assert forall|i: int| 0 <= i < self@.len() implies (#[trigger] self@[i]).key
                        != r@.key by {
                        lemma_lex_lt_irreflexive(r@.key);
                    }
                    lemma_spec_find_absent(self@, r@.key);
                    lemma_spec_put_absent(self@, r@, idx as int);
                }
                self.size = self.size + key_len + new_vlen + 17;
                self.entries.insert(idx, entry);
                proof {
                    assert(self@ =~= old(self)@.insert(idx as int, r@));
                }
            },
        }
    }

    /// The current record for the key: a value record or a tombstone.
    /// Callers must check `deleted` before reading `value`.
    pub fn get(&self, key: &[u8]) -> (r: Option<&MemTableEntry>)
        requires
            self.wf(),
        ensures
            match r {
                Some(e) => spec_find(self@, key@) == Some(e@),
                None => spec_find(self@, key@) is None,
            },
    {
        match self.get_index(key) {
            Ok(idx) => {
                proof {
                    lemma_spec_find_present(self@, idx as int);
                    assert(self@[idx as int] == self.entries@[idx as int]@);
                }
                Some(&self.entries[idx])
            },
            Err(_) => {
                proof {
                    assert forall|i: int| 0 <= i < self@.len() implies (#[trigger] self@[i]).key
                        != key@ by {
                        lemma_lex_lt_irreflexive(key@);
                    }
                    lemma_spec_find_absent(self@, key@);
                }
                None
            },
        }
    }
}

} // verus!
