//! The recovery procedure's core: decoding every record of every historical
//! segment, in chronological order, and folding the stream into one fresh
//! sorted record set while re-serializing it into one consolidated log.
//! Recovery is a pure, deterministic fold over the concatenated record
//! stream; the consolidated log re-serializes every historical record and is
//! not deduplicated on disk — only the in-memory state is.

use vstd::prelude::*;
use vstd::slice::slice_to_vec;

use crate::codec::{lemma_decode_one_bounds, spec_decode_one, spec_encode, encode_delete,
    encode_set, WalIterator};
use crate::memtable::{lemma_spec_put_size, lemma_spec_put_wf, spec_put, table_size, table_wf,
    MemTable};
use crate::record::{record_size, record_wf, set_record, tombstone_record, value_len, Record,
    WALEntry};

verus! {

/// The records of one segment, in write order, ending at the first point
/// where the bytes stop mid-record: the explicit truncation-tolerance
/// policy, a crash's partial trailing record reads as "no more records".
pub open spec fn spec_decode_stream(s: Seq<u8>) -> Seq<Record>
    decreases s.len(),
{
    match spec_decode_one(s) {
        None => Seq::<Record>::empty(),
        Some(p) => seq![p.0] + spec_decode_stream(s.skip(p.1)),
    }
}

/// The records as decoded entries hold them.
pub open spec fn entries_view(v: Seq<WALEntry>) -> Seq<Record> {
    v.map_values(|e: WALEntry| e@)
}

/// Total table footprint of a stream of records.
pub open spec fn stream_size(rs: Seq<Record>) -> int
    decreases rs.len(),
{
    if rs.len() == 0 {
        0
    } else {
        record_size(rs[0]) + stream_size(rs.drop_first())
    }
}

/// Every record of every segment, concatenated in the segments' given
/// (chronological) order.
pub open spec fn all_records(segs: Seq<Seq<u8>>) -> Seq<Record>
    decreases segs.len(),
{
    if segs.len() == 0 {
        Seq::<Record>::empty()
    } else {
        spec_decode_stream(segs[0]) + all_records(segs.drop_first())
    }
}

/// Total byte count over all segments.
pub open spec fn total_len(segs: Seq<Seq<u8>>) -> int
    decreases segs.len(),
{
    if segs.len() == 0 {
        0
    } else {
        segs[0].len() + total_len(segs.drop_first())
    }
}

/// Replay: the pure left fold of a record stream into a sorted record set,
/// later records for a key overwriting earlier ones.
pub open spec fn spec_replay(init: Seq<Record>, rs: Seq<Record>) -> Seq<Record>
    decreases rs.len(),
{
    if rs.len() == 0 {
        init
    } else {
        spec_replay(spec_put(init, rs[0]), rs.drop_first())
    }
}

/// The re-serialization of a record stream, record after record.
pub open spec fn spec_encode_stream(rs: Seq<Record>) -> Seq<u8>
    decreases rs.len(),
{
    if rs.len() == 0 {
        Seq::<u8>::empty()
    } else {
        spec_encode(rs[0]) + spec_encode_stream(rs.drop_first())
    }
}

proof fn lemma_stream_size_cons(r: Record, rs: Seq<Record>)
    ensures
        stream_size(seq![r] + rs) == record_size(r) + stream_size(rs),
{
    let t = seq![r] + rs;
    assert(t[0] == r);
    assert(t.drop_first() =~= rs);
}

pub proof fn lemma_stream_size_nonneg(rs: Seq<Record>)
    ensures
        stream_size(rs) >= 0,
    decreases rs.len(),
{
    if rs.len() > 0 {
        lemma_stream_size_nonneg(rs.drop_first());
    }
}

/// A prefix and its complement split the stream's footprint.
pub proof fn lemma_stream_size_split(rs: Seq<Record>, i: int)
    requires
        0 <= i <= rs.len(),
    ensures
        stream_size(rs) == stream_size(rs.take(i)) + stream_size(rs.skip(i)),
    decreases i,
{
    if i == 0 {
        assert(rs.take(0) =~= Seq::<Record>::empty());
        assert(rs.skip(0) =~= rs);
    } else {
        lemma_stream_size_split(rs.drop_first(), i - 1);
        assert(rs.take(i) =~= seq![rs[0]] + rs.drop_first().take(i - 1));
        assert(rs.skip(i) =~= rs.drop_first().skip(i - 1));
        lemma_stream_size_cons(rs[0], rs.drop_first().take(i - 1));
    }
}

pub proof fn lemma_stream_size_snoc(rs: Seq<Record>, r: Record)
    ensures
        stream_size(rs.push(r)) == stream_size(rs) + record_size(r),
    decreases rs.len(),
{
    if rs.len() == 0 {
        assert(rs.push(r)[0] == r);
        assert(rs.push(r).drop_first() =~= Seq::<Record>::empty());
        assert(stream_size(Seq::<Record>::empty()) == 0);
    } else {
        lemma_stream_size_snoc(rs.drop_first(), r);
        assert(rs.push(r)[0] == rs[0]);
        assert(rs.push(r).drop_first() =~= rs.drop_first().push(r));
    }
}

/// Folding one more record is a put on the fold so far.
pub proof fn lemma_replay_snoc(init: Seq<Record>, rs: Seq<Record>, r: Record)
    ensures
        spec_replay(init, rs.push(r)) == spec_put(spec_replay(init, rs), r),
    decreases rs.len(),
{
    if rs.len() == 0 {
        assert(rs.push(r)[0] == r);
        assert(rs.push(r).drop_first() =~= Seq::<Record>::empty());
        assert(spec_replay(spec_put(init, r), Seq::<Record>::empty()) == spec_put(init, r));
    } else {
        lemma_replay_snoc(spec_put(init, rs[0]), rs.drop_first(), r);
        assert(rs.push(r)[0] == rs[0]);
        assert(rs.push(r).drop_first() =~= rs.drop_first().push(r));
    }
}

/// Replaying a concatenation is replaying the parts in turn.
pub proof fn lemma_replay_concat(init: Seq<Record>, a: Seq<Record>, b: Seq<Record>)
    ensures
        spec_replay(init, a + b) == spec_replay(spec_replay(init, a), b),
    decreases a.len(),
{
    if a.len() == 0 {
        assert(a + b =~= b);
    } else {
        assert((a + b)[0] == a[0]);
        assert((a + b).drop_first() =~= a.drop_first() + b);
        lemma_replay_concat(spec_put(init, a[0]), a.drop_first(), b);
    }
}

pub proof fn lemma_encode_stream_snoc(rs: Seq<Record>, r: Record)
    ensures
        spec_encode_stream(rs.push(r)) == spec_encode_stream(rs) + spec_encode(r),
    decreases rs.len(),
{
    if rs.len() == 0 {
        assert(rs.push(r)[0] == r);
        assert(rs.push(r).drop_first() =~= Seq::<Record>::empty());
        assert(spec_encode_stream(Seq::<Record>::empty()) =~= Seq::<u8>::empty());
        assert(spec_encode_stream(rs) + spec_encode(r) =~= spec_encode(r) + Seq::<u8>::empty());
    } else {
        lemma_encode_stream_snoc(rs.drop_first(), r);
        assert(rs.push(r)[0] == rs[0]);
        assert(rs.push(r).drop_first() =~= rs.drop_first().push(r));
        assert(spec_encode(rs[0]) + (spec_encode_stream(rs.drop_first()) + spec_encode(r)) =~= (
        spec_encode(rs[0]) + spec_encode_stream(rs.drop_first())) + spec_encode(r));
    }
}

/// Every decoded record is well-formed and machine-representable, and the
/// stream's table footprint never exceeds the segment's byte count.
pub proof fn lemma_decode_stream_bounds(s: Seq<u8>)
    ensures
        stream_size(spec_decode_stream(s)) <= s.len(),
        forall|i: int|
            0 <= i < spec_decode_stream(s).len() ==> {
                &&& record_wf(#[trigger] spec_decode_stream(s)[i])
                &&& spec_decode_stream(s)[i].key.len() <= usize::MAX
                &&& value_len(spec_decode_stream(s)[i].value) <= usize::MAX
            },
    decreases s.len(),
{
    lemma_decode_one_bounds(s);
    match spec_decode_one(s) {
        None => {},
        Some(p) => {
            lemma_decode_stream_bounds(s.skip(p.1));
            lemma_stream_size_cons(p.0, spec_decode_stream(s.skip(p.1)));
            let t = seq![p.0] + spec_decode_stream(s.skip(p.1));
            assert(spec_decode_stream(s) == t);
            assert forall|i: int| 0 <= i < t.len() implies {
                &&& record_wf(#[trigger] t[i])
                &&& t[i].key.len() <= usize::MAX
                &&& value_len(t[i].value) <= usize::MAX
            } by {
                if i > 0 {
                    assert(t[i] == spec_decode_stream(s.skip(p.1))[i - 1]);
                }
            }
        },
    }
}

pub proof fn lemma_total_len_nonneg(segs: Seq<Seq<u8>>)
    ensures
        total_len(segs) >= 0,
    decreases segs.len(),
{
    if segs.len() > 0 {
        lemma_total_len_nonneg(segs.drop_first());
    }
}

/// A prefix of the segments accounts for part of the total byte count.
pub proof fn lemma_total_len_take_le(segs: Seq<Seq<u8>>, i: int)
    requires
        0 <= i <= segs.len(),
    ensures
        total_len(segs.take(i)) <= total_len(segs),
        total_len(segs.take(i)) >= 0,
    decreases i,
{
    lemma_total_len_nonneg(segs.take(i));
    if i == 0 {
        lemma_total_len_nonneg(segs);
        assert(segs.take(0) =~= Seq::<Seq<u8>>::empty());
    } else {
        lemma_total_len_take_le(segs.drop_first(), i - 1);
        assert(segs.take(i) =~= seq![segs[0]] + segs.drop_first().take(i - 1));
        let t = segs.take(i);
        assert(t[0] == segs[0]);
        assert(t.drop_first() =~= segs.drop_first().take(i - 1));
    }
}

proof fn lemma_total_len_snoc(segs: Seq<Seq<u8>>, x: Seq<u8>)
    ensures
        total_len(segs.push(x)) == total_len(segs) + x.len(),
    decreases segs.len(),
{
    if segs.len() == 0 {
        assert(segs.push(x)[0] == x);
        assert(segs.push(x).drop_first() =~= Seq::<Seq<u8>>::empty());
        assert(total_len(Seq::<Seq<u8>>::empty()) == 0);
    } else {
        lemma_total_len_snoc(segs.drop_first(), x);
        assert(segs.push(x)[0] == segs[0]);
        assert(segs.push(x).drop_first() =~= segs.drop_first().push(x));
    }
}

proof fn lemma_all_records_snoc(segs: Seq<Seq<u8>>, x: Seq<u8>)
    ensures
        all_records(segs.push(x)) == all_records(segs) + spec_decode_stream(x),
    decreases segs.len(),
{
    if segs.len() == 0 {
        assert(segs.push(x)[0] == x);
        assert(segs.push(x).drop_first() =~= Seq::<Seq<u8>>::empty());
        assert(all_records(Seq::<Seq<u8>>::empty()) =~= Seq::<Record>::empty());
        assert(all_records(segs) + spec_decode_stream(x) =~= spec_decode_stream(x)
            + Seq::<Record>::empty());
    } else {
        lemma_all_records_snoc(segs.drop_first(), x);
        assert(segs.push(x)[0] == segs[0]);
        assert(segs.push(x).drop_first() =~= segs.drop_first().push(x));
        assert(spec_decode_stream(segs[0]) + (all_records(segs.drop_first())
            + spec_decode_stream(x)) =~= (spec_decode_stream(segs[0]) + all_records(
            segs.drop_first(),
        )) + spec_decode_stream(x));
    }
}

/// Decode every complete record of one segment, in order. A truncated tail
/// decodes to nothing: recovery completes and keeps every record written
/// before the truncation point.
pub fn decode_segment(bytes: Vec<u8>) -> (r: Vec<WALEntry>)
    ensures
        entries_view(r@) == spec_decode_stream(bytes@),
{
    let mut it = WalIterator::new(bytes);
    let mut out: Vec<WALEntry> = Vec::new();
    proof {
        assert(entries_view(out@) =~= Seq::<Record>::empty());
    }
    loop
        invariant
            it.inv(),
            spec_decode_stream(bytes@) == entries_view(out@) + spec_decode_stream(it.remaining()),
        decreases it.remaining().len(),
    {
        let ghost before = it.remaining();
        proof {
            lemma_decode_one_bounds(before);
        }
        match it.next() {
            Some(e) => {
                proof {
                    let p = spec_decode_one(before).unwrap();
                    assert(spec_decode_stream(before) == seq![p.0] + spec_decode_stream(
                        before.skip(p.1),
                    ));
                    assert(entries_view(out@.push(e)) =~= entries_view(out@) + seq![e@]);
                    assert(entries_view(out@) + (seq![e@] + spec_decode_stream(it.remaining()))
                        =~= (entries_view(out@) + seq![e@]) + spec_decode_stream(it.remaining()));
                }
                out.push(e);
            },
            None => {
                proof {
                    assert(spec_decode_stream(it.remaining()) == Seq::<Record>::empty());
                    assert(entries_view(out@) + Seq::<Record>::empty() =~= entries_view(out@));
                }
                return out;
            },
        }
    }
}

/// Apply a stream of decoded records to a table, in order: a value record
/// becomes a `set`, a tombstone a `delete`, so a later record for a key
/// always overwrites an earlier one.
pub fn replay(mem: &mut MemTable, entries: &Vec<WALEntry>)
    requires
        old(mem).wf(),
        forall|i: int| 0 <= i < entries@.len() ==> record_wf((#[trigger] entries@[i])@),
        table_size(old(mem)@) + stream_size(entries_view(entries@)) <= usize::MAX,
    ensures
        final(mem).wf(),
        final(mem)@ == spec_replay(old(mem)@, entries_view(entries@)),
{
    let ghost rs = entries_view(entries@);
    proof {
        lemma_stream_size_nonneg(rs);
    }
    let mut i: usize = 0;
    while i < entries.len()
        invariant
            mem.wf(),
            i <= entries@.len(),
            rs == entries_view(entries@),
            rs.len() == entries@.len(),
            forall|j: int| 0 <= j < entries@.len() ==> record_wf((#[trigger] entries@[j])@),
            table_size(old(mem)@) + stream_size(rs) <= usize::MAX,
            mem@ == spec_replay(old(mem)@, rs.take(i as int)),
            table_size(mem@) <= table_size(old(mem)@) + stream_size(rs.take(i as int)),
            stream_size(rs.take(i as int)) <= stream_size(rs),
        decreases entries@.len() - i,
    {
        let e = &entries[i];
        proof {
            assert(rs[i as int] == e@);
            lemma_stream_size_split(rs, i + 1);
            lemma_stream_size_nonneg(rs.skip(i + 1));
            lemma_stream_size_snoc(rs.take(i as int), rs[i as int]);
            assert(rs.take(i as int).push(rs[i as int]) =~= rs.take(i + 1));
            lemma_spec_put_size(mem@, e@);
            lemma_spec_put_wf(mem@, e@);
            lemma_replay_snoc(old(mem)@, rs.take(i as int), rs[i as int]);
        }
        match &e.value {
            Some(v) => {
                proof {
                    assert(set_record(e.key@, v@, e.timestamp) == e@);
                }
                mem.set(e.key.as_slice(), v.as_slice(), e.timestamp);
            },
            None => {
                proof {
                    assert(tombstone_record(e.key@, e.timestamp) == e@);
                }
                mem.delete(e.key.as_slice(), e.timestamp);
            },
        }
        i += 1;
    }
    proof {
        assert(rs.take(rs.len() as int) =~= rs);
    }
}

/// Re-serialize decoded records, unchanged and in their original relative
/// order, onto the consolidated log's bytes.
fn append_encoded(log: &mut Vec<u8>, entries: &Vec<WALEntry>)
    requires
        forall|i: int| 0 <= i < entries@.len() ==> record_wf((#[trigger] entries@[i])@),
    ensures
        final(log)@ == old(log)@ + spec_encode_stream(entries_view(entries@)),
{
    let ghost rs = entries_view(entries@);
    proof {
        assert(old(log)@ + spec_encode_stream(rs.take(0)) =~= old(log)@);
    }
    let mut i: usize = 0;
    while i < entries.len()
        invariant
            i <= entries@.len(),
            rs == entries_view(entries@),
            rs.len() == entries@.len(),
            forall|j: int| 0 <= j < entries@.len() ==> record_wf((#[trigger] entries@[j])@),
            log@ == old(log)@ + spec_encode_stream(rs.take(i as int)),
        decreases entries@.len() - i,
    {
        let e = &entries[i];
        proof {
            assert(rs[i as int] == e@);
            lemma_encode_stream_snoc(rs.take(i as int), rs[i as int]);
            assert(rs.take(i as int).push(rs[i as int]) =~= rs.take(i + 1));
        }
        let mut enc = match &e.value {
            Some(v) => {
                proof {
                    assert(set_record(e.key@, v@, e.timestamp) == e@);
                }
                encode_set(e.key.as_slice(), v.as_slice(), e.timestamp)
            },
            None => {
                proof {
                    assert(tombstone_record(e.key@, e.timestamp) == e@);
                }
                encode_delete(e.key.as_slice(), e.timestamp)
            },
        };
        log.append(&mut enc);
        proof {
            assert(old(log)@ + (spec_encode_stream(rs.take(i as int)) + spec_encode(
                rs[i as int],
            )) =~= (old(log)@ + spec_encode_stream(rs.take(i as int))) + spec_encode(
                rs[i as int],
            ));
        }
        i += 1;
    }
    proof {
        assert(rs.take(rs.len() as int) =~= rs);
    }
}

/// The recovery fold proper: one fresh table and one consolidated log from
/// the segments' bytes, given in chronological (filename-lexicographic)
/// order. The table is exactly the replay of every record of every segment,
/// concatenated in that order, into a fresh table; the log re-serializes
/// that whole record stream, undeduplicated.
pub fn recover_parts(segments: &Vec<Vec<u8>>) -> (r: (MemTable, Vec<u8>))
    requires
        total_len(segments.deep_view()) <= usize::MAX,
    ensures
        r.0.wf(),
        r.0@ == spec_replay(Seq::<Record>::empty(), all_records(segments.deep_view())),
        r.1@ == spec_encode_stream(all_records(segments.deep_view())),
{
    let ghost segs = segments.deep_view();
    let mut mem = MemTable::new();
    let mut log: Vec<u8> = Vec::new();
    proof {
        assert(segs.take(0) =~= Seq::<Seq<u8>>::empty());
        assert(mem@ == spec_replay(Seq::<Record>::empty(), all_records(segs.take(0))));
        assert(log@ =~= spec_encode_stream(all_records(segs.take(0))));
    }
    let mut si: usize = 0;
    while si < segments.len()
        invariant
            mem.wf(),
            si <= segments@.len(),
            segs == segments.deep_view(),
            segs.len() == segments@.len(),
            total_len(segs) <= usize::MAX,
            mem@ == spec_replay(Seq::<Record>::empty(), all_records(segs.take(si as int))),
            log@ == spec_encode_stream(all_records(segs.take(si as int))),
            table_size(mem@) <= total_len(segs.take(si as int)),
        decreases segments@.len() - si,
    {
        proof {
            assert(segs[si as int] == segments@[si as int].deep_view());
            assert(segments@[si as int].deep_view() =~= segments@[si as int]@);
        }
        let seg_copy = slice_to_vec(segments[si].as_slice());
        let entries = decode_segment(seg_copy);
        let ghost seg_stream = spec_decode_stream(segs[si as int]);
        proof {
            lemma_decode_stream_bounds(segs[si as int]);
            assert(forall|j: int|
                0 <= j < entries@.len() ==> (#[trigger] entries@[j])@ == entries_view(entries@)[j]);
            lemma_total_len_take_le(segs, si as int);
            lemma_total_len_take_le(segs, si + 1);
            lemma_total_len_snoc(segs.take(si as int), segs[si as int]);
            assert(segs.take(si as int).push(segs[si as int]) =~= segs.take(si + 1));
            lemma_all_records_snoc(segs.take(si as int), segs[si as int]);
        }
        let ghost before_table = mem@;
        replay(&mut mem, &entries);
        append_encoded(&mut log, &entries);
        proof {
            lemma_replay_concat(
                Seq::<Record>::empty(),
                all_records(segs.take(si as int)),
                seg_stream,
            );
            lemma_encode_stream_concat(all_records(segs.take(si as int)), seg_stream);
            lemma_stream_size_nonneg(seg_stream);
            lemma_replay_size_bound(before_table, seg_stream);
        }
        si += 1;
    }
    proof {
        assert(segs.take(segs.len() as int) =~= segs);
    }
    (mem, log)
}

/// Encoding distributes over concatenation of record streams.
proof fn lemma_encode_stream_concat(a: Seq<Record>, b: Seq<Record>)
    ensures
        spec_encode_stream(a + b) == spec_encode_stream(a) + spec_encode_stream(b),
    decreases a.len(),
{
    if a.len() == 0 {
        assert(a + b =~= b);
        assert(spec_encode_stream(a) + spec_encode_stream(b) =~= spec_encode_stream(b));
    } else {
        lemma_encode_stream_concat(a.drop_first(), b);
        assert((a + b)[0] == a[0]);
        assert((a + b).drop_first() =~= a.drop_first() + b);
        assert(spec_encode(a[0]) + (spec_encode_stream(a.drop_first()) + spec_encode_stream(b))
            =~= (spec_encode(a[0]) + spec_encode_stream(a.drop_first())) + spec_encode_stream(b));
    }
}

/// Replaying a well-formed record stream can grow a well-formed table by at
/// most the stream's footprint.
proof fn lemma_replay_size_bound(init: Seq<Record>, rs: Seq<Record>)
    requires
        table_wf(init),
        forall|i: int| 0 <= i < rs.len() ==> record_wf(#[trigger] rs[i]),
    ensures
        table_size(spec_replay(init, rs)) <= table_size(init) + stream_size(rs),
        table_wf(spec_replay(init, rs)),
    decreases rs.len(),
{
    if rs.len() > 0 {
        lemma_spec_put_size(init, rs[0]);
        lemma_spec_put_wf(init, rs[0]);
        assert(forall|i: int|
            0 <= i < rs.drop_first().len() ==> (#[trigger] rs.drop_first()[i]) == rs[i + 1]);
        lemma_replay_size_bound(spec_put(init, rs[0]), rs.drop_first());
        lemma_stream_size_cons(rs[0], rs.drop_first());
        assert(seq![rs[0]] + rs.drop_first() =~= rs);
    }
}

} // verus!
