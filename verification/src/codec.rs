//! The log record codec: the fixed binary layout of one write-ahead-log
//! record, an encoder for the writer, and a sequential decoder over one
//! segment's bytes.
//!
//! A value record lays out as
//! | key length (8, LE) | flag 0 | value length (8, LE) | key | value | timestamp (16, LE) |
//! and a tombstone omits the value-length field and the value bytes entirely:
//! | key length (8, LE) | flag 1 | key | timestamp (16, LE) |.
//! The decoder therefore branches on the flag before it looks for a value
//! length; the field order and conditional presence are a format contract.

use vstd::bytes::{
    lemma_auto_spec_u128_to_from_le_bytes, lemma_auto_spec_u64_to_from_le_bytes,
    spec_u128_from_le_bytes, spec_u128_to_le_bytes, spec_u64_from_le_bytes, spec_u64_to_le_bytes,
    u128_from_le_bytes, u128_to_le_bytes, u64_from_le_bytes, u64_to_le_bytes,
};
use vstd::prelude::*;
use vstd::slice::{slice_subrange, slice_to_vec};

use crate::record::{record_size, record_wf, set_record, tombstone_record, value_len, Record,
    WALEntry};

verus! {

/// The bytes of one encoded record.
pub open spec fn spec_encode(r: Record) -> Seq<u8> {
    if r.deleted {
        spec_u64_to_le_bytes(r.key.len() as u64) + seq![1u8] + r.key + spec_u128_to_le_bytes(
            r.timestamp,
        )
    } else {
        spec_u64_to_le_bytes(r.key.len() as u64) + seq![0u8] + spec_u64_to_le_bytes(
            r.value.unwrap().len() as u64,
        ) + r.key + r.value.unwrap() + spec_u128_to_le_bytes(r.timestamp)
    }
}

/// The record at the head of a byte sequence and how many bytes it spans,
/// or nothing when the bytes end mid-record. Any nonzero flag byte reads as
/// a tombstone; a key or value length that cannot fit the machine's memory
/// also ends the stream.
pub open spec fn spec_decode_one(s: Seq<u8>) -> Option<(Record, int)> {
    if s.len() < 9 {
        None
    } else {
        let klen = spec_u64_from_le_bytes(s.subrange(0, 8)) as int;
        if klen > usize::MAX as int {
            None
        } else if s[8] != 0 {
            if s.len() >= 25 + klen {
                Some(
                    (
                        Record {
                            key: s.subrange(9, 9 + klen),
                            value: None,
                            timestamp: spec_u128_from_le_bytes(s.subrange(9 + klen, 25 + klen)),
                            deleted: true,
                        },
                        25 + klen,
                    ),
                )
            } else {
                None
            }
        } else {
            if s.len() < 17 {
                None
            } else {
                let vlen = spec_u64_from_le_bytes(s.subrange(9, 17)) as int;
                if vlen > usize::MAX as int {
                    None
                } else if s.len() >= 33 + klen + vlen {
                    Some(
                        (
                            Record {
                                key: s.subrange(17, 17 + klen),
                                value: Some(s.subrange(17 + klen, 17 + klen + vlen)),
                                timestamp: spec_u128_from_le_bytes(
                                    s.subrange(17 + klen + vlen, 33 + klen + vlen),
                                ),
                                deleted: false,
                            },
                            33 + klen + vlen,
                        ),
                    )
                } else {
                    None
                }
            }
        }
    }
}

/// A decoded record is well-formed, spans at least its fixed fields and at
/// most the bytes present, and its table footprint never exceeds the bytes
/// it was read from.
pub proof fn lemma_decode_one_bounds(s: Seq<u8>)
    ensures
        match spec_decode_one(s) {
            Some(p) => {
                &&& record_wf(p.0)
                &&& 25 <= p.1 <= s.len()
                &&& record_size(p.0) <= p.1
                &&& p.0.key.len() <= usize::MAX
                &&& value_len(p.0.value) <= usize::MAX
            },
            None => true,
        },
{
}

/// Append a slice's bytes to a vector.
fn push_bytes(out: &mut Vec<u8>, bytes: &[u8])
    ensures
        final(out)@ == old(out)@ + bytes@,
{
    let mut i: usize = 0;
    while i < bytes.len()
        invariant
            i <= bytes@.len(),
            out@ == old(out)@ + bytes@.take(i as int),
        decreases bytes@.len() - i,
    {
        let b = bytes[i];
        out.push(b);
        proof {
            assert(old(out)@ + bytes@.take(i + 1) =~= (old(out)@ + bytes@.take(i as int)).push(
                bytes@[i as int],
            ));
        }
        i += 1;
    }
    proof {
        assert(bytes@.take(bytes@.len() as int) =~= bytes@);
    }
}

/// Encode one value record.
pub fn encode_set(key: &[u8], value: &[u8], timestamp: u128) -> (r: Vec<u8>)
    ensures
        r@ == spec_encode(set_record(key@, value@, timestamp)),
{
    let mut out = u64_to_le_bytes(key.len() as u64);
    out.push(0u8);
    let mut vlen = u64_to_le_bytes(value.len() as u64);
    out.append(&mut vlen);
    push_bytes(&mut out, key);
    push_bytes(&mut out, value);
    let mut ts = u128_to_le_bytes(timestamp);
    out.append(&mut ts);
    proof {
        assert(out@ =~= spec_encode(set_record(key@, value@, timestamp)));
    }
    out
}

/// Encode one tombstone record.
pub fn encode_delete(key: &[u8], timestamp: u128) -> (r: Vec<u8>)
    ensures
        r@ == spec_encode(tombstone_record(key@, timestamp)),
{
    let mut out = u64_to_le_bytes(key.len() as u64);
    out.push(1u8);
    push_bytes(&mut out, key);
    let mut ts = u128_to_le_bytes(timestamp);
    out.append(&mut ts);
    proof {
        assert(out@ =~= spec_encode(tombstone_record(key@, timestamp)));
    }
    out
}

/// Round trip: decoding what the codec encoded yields the same record —
/// same key, value, timestamp and tombstone flag — and consumes exactly its
/// bytes, whatever follows them.
pub proof fn lemma_codec_round_trip(r: Record, rest: Seq<u8>)
    requires
        record_wf(r),
        r.key.len() <= usize::MAX,
        value_len(r.value) <= usize::MAX,
    ensures
        spec_decode_one(spec_encode(r) + rest) == Some((r, spec_encode(r).len() as int)),
{
    lemma_auto_spec_u64_to_from_le_bytes();
    lemma_auto_spec_u128_to_from_le_bytes();
    let s = spec_encode(r) + rest;
    let klen = r.key.len() as int;
    assert(usize::MAX as int <= u64::MAX as int);
    if r.deleted {
        assert(spec_encode(r).len() == 25 + klen);
        assert(s.subrange(0, 8) =~= spec_u64_to_le_bytes(r.key.len() as u64));
        assert(spec_u64_from_le_bytes(s.subrange(0, 8)) == r.key.len() as u64);
        assert(s[8] == 1u8);
        assert(s.subrange(9, 9 + klen) =~= r.key);
        assert(s.subrange(9 + klen, 25 + klen) =~= spec_u128_to_le_bytes(r.timestamp));
        let p = spec_decode_one(s).unwrap();
        assert(p.0.value == r.value);
        assert(p.0 == r);
    } else {
        let vlen = r.value.unwrap().len() as int;
        assert(spec_encode(r).len() == 33 + klen + vlen);
        assert(s.subrange(0, 8) =~= spec_u64_to_le_bytes(r.key.len() as u64));
        assert(spec_u64_from_le_bytes(s.subrange(0, 8)) == r.key.len() as u64);
        assert(s[8] == 0u8);
        assert(s.subrange(9, 17) =~= spec_u64_to_le_bytes(r.value.unwrap().len() as u64));
        assert(spec_u64_from_le_bytes(s.subrange(9, 17)) == r.value.unwrap().len() as u64);
        assert(s.subrange(17, 17 + klen) =~= r.key);
        assert(s.subrange(17 + klen, 17 + klen + vlen) =~= r.value.unwrap());
        assert(s.subrange(17 + klen + vlen, 33 + klen + vlen) =~= spec_u128_to_le_bytes(
            r.timestamp,
        ));
        let p = spec_decode_one(s).unwrap();
        assert(p.0.value == r.value);
        assert(p.0 == r);
    }
}

/// Copy a range of a byte vector.
fn copy_range(buf: &Vec<u8>, start: usize, len: usize) -> (r: Vec<u8>)
    requires
        start + len <= buf@.len(),
    ensures
        r@ == buf@.subrange(start as int, start as int + len as int),
{
    let n = buf.len();
    proof {
        assert(start + len <= n);
    }
    slice_to_vec(slice_subrange(buf.as_slice(), start, start + len))
}

/// A sequential, forward-only decoder over one segment's bytes. It owns the
/// bytes and consumes them one record at a time; it is not restartable, and
/// once it has stopped — at the end or at a truncated trailing record —
/// every further call is a defined no-op.
pub struct WalIterator {
    buf: Vec<u8>,
    pos: usize,
}

impl WalIterator {
    /// The bytes not yet decoded.
    pub closed spec fn remaining(&self) -> Seq<u8> {
        self.buf@.skip(self.pos as int)
    }

    /// The cursor stays within the buffer.
    pub closed spec fn inv(&self) -> bool {
        self.pos <= self.buf@.len()
    }

    pub fn new(buf: Vec<u8>) -> (r: WalIterator)
        ensures
            r.inv(),
            r.remaining() == buf@,
    {
        let r = WalIterator { buf, pos: 0 };
        proof {
            assert(r.buf@.skip(0) =~= r.buf@);
        }
        r
    }

    /// Decode the next record. A short buffer — a segment truncated
    /// mid-record by a crash — ends the stream silently, by design: the
    /// partial trailing record is dropped rather than surfaced as an error.
    pub fn next(&mut self) -> (r: Option<WALEntry>)
        requires
            old(self).inv(),
        ensures
            final(self).inv(),
            match spec_decode_one(old(self).remaining()) {
                Some(p) => {
                    &&& r matches Some(e) && e@ == p.0
                    &&& final(self).remaining() == old(self).remaining().skip(p.1)
                },
                None => r is None && *final(self) == *old(self),
            },
    {
        let ghost s = self.remaining();
        let len = self.buf.len();
        let rem = len - self.pos;
        proof {
            assert(s.len() == rem);
            assert(forall|i: int| 0 <= i < s.len() ==> s[i] == self.buf@[self.pos + i]);
        }
        if rem < 9 {
            return None;
        }
        let klen64 = u64_from_le_bytes(
            slice_subrange(self.buf.as_slice(), self.pos, self.pos + 8),
        );
        proof {
            assert(self.buf@.subrange(self.pos as int, self.pos + 8) =~= s.subrange(0, 8));
        }
        let flag = self.buf[self.pos + 8];
        proof {
            assert(flag == s[8]);
        }
        if klen64 > usize::MAX as u64 {
            return None;
        }
        let klen = klen64 as usize;
        if flag != 0 {
            if rem - 9 < klen {
                return None;
            }
            if rem - 9 - klen < 16 {
                return None;
            }
            let key = copy_range(&self.buf, self.pos + 9, klen);
            let ts_slice = slice_subrange(
                self.buf.as_slice(),
                self.pos + 9 + klen,
                self.pos + 25 + klen,
            );
            let timestamp = u128_from_le_bytes(ts_slice);
            proof {
                assert(key@ =~= s.subrange(9, 9 + klen as int));
                assert(ts_slice@ =~= s.subrange(9 + klen as int, 25 + klen as int));
            }
            self.pos = self.pos + 25 + klen;
            proof {
                assert(self.remaining() =~= s.skip(25 + klen as int));
            }
            Some(WALEntry { key, value: None, timestamp, deleted: true })
        } else {
            if rem < 17 {
                return None;
            }
            let vlen64 = u64_from_le_bytes(
                slice_subrange(self.buf.as_slice(), self.pos + 9, self.pos + 17),
            );
            proof {
                assert(self.buf@.subrange(self.pos + 9, self.pos + 17) =~= s.subrange(9, 17));
            }
            if vlen64 > usize::MAX as u64 {
                return None;
            }
            let vlen = vlen64 as usize;
            if rem - 17 < klen {
                return None;
            }
            if rem - 17 - klen < vlen {
                return None;
            }
            if rem - 17 - klen - vlen < 16 {
                return None;
            }
            let key = copy_range(&self.buf, self.pos + 17, klen);
            let value = copy_range(&self.buf, self.pos + 17 + klen, vlen);
            let ts_slice = slice_subrange(
                self.buf.as_slice(),
                self.pos + 17 + klen + vlen,
                self.pos + 33 + klen + vlen,
            );
            let timestamp = u128_from_le_bytes(ts_slice);
            proof {
                assert(key@ =~= s.subrange(17, 17 + klen as int));
                assert(value@ =~= s.subrange(17 + klen as int, 17 + klen as int + vlen as int));
                assert(ts_slice@ =~= s.subrange(
                    17 + klen as int + vlen as int,
                    33 + klen as int + vlen as int,
                ));
            }
            self.pos = self.pos + 33 + klen + vlen;
            proof {
                assert(self.remaining() =~= s.skip(33 + klen as int + vlen as int));
            }
            Some(WALEntry { key, value: Some(value), timestamp, deleted: false })
        }
    }
}

} // verus!
