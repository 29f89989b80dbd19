//! The segment filename convention: `<decimal microsecond timestamp>.wal`.
//! Filenames encode their creation time, so filename-lexicographic order is
//! chronological order; and a directory entry without an extension is a
//! reported scan failure, not a crash.

use vstd::multiset::Multiset;
use vstd::prelude::*;

use crate::engine::StorageError;
use crate::lex::{
    compare_bytes, lemma_lex_lt_asymmetric, lemma_lex_lt_irreflexive, lemma_lex_lt_total,
    lemma_lex_lt_transitive, lex_lt, KeyOrder,
};

verus! {

broadcast use vstd::seq_lib::group_to_multiset_ensures, vstd::multiset::group_multiset_axioms;

/// The '.' byte.
pub open spec fn dot() -> u8 {
    46u8
}

/// The bytes of "wal", the segment extension.
pub open spec fn wal_extension() -> Seq<u8> {
    seq![119u8, 97u8, 108u8]
}

/// Index of the last '.' in a name, or -1 when there is none.
pub open spec fn last_dot(name: Seq<u8>) -> int
    decreases name.len(),
{
    if name.len() == 0 {
        -1
    } else if name[name.len() - 1] == dot() {
        name.len() - 1
    } else {
        last_dot(name.drop_last())
    }
}

/// The name's extension: what follows the last '.', unless the name has no
/// '.' or starts with its only one (a hidden file), which is no extension.
pub open spec fn spec_extension(name: Seq<u8>) -> Option<Seq<u8>> {
    let d = last_dot(name);
    if d <= 0 {
        None
    } else {
        Some(name.skip(d + 1))
    }
}

/// The decimal digits of a number, most significant first.
pub open spec fn spec_decimal(n: u128) -> Seq<u8>
    decreases n,
{
    if n < 10 {
        seq![(48 + n) as u8]
    } else {
        spec_decimal(n / 10) + seq![(48 + n % 10) as u8]
    }
}

/// A new segment's filename for the moment it is created.
pub open spec fn spec_segment_file_name(timestamp: u128) -> Seq<u8> {
    spec_decimal(timestamp) + seq![dot()] + wal_extension()
}

fn push_decimal(out: &mut Vec<u8>, n: u128)
    ensures
        final(out)@ == old(out)@ + spec_decimal(n),
    decreases n,
{
    if n < 10 {
        out.push(48 + (n as u8));
        proof {
            assert(out@ =~= old(out)@ + spec_decimal(n));
        }
    } else {
        push_decimal(out, n / 10);
        let d: u8 = 48 + ((n % 10) as u8);
        out.push(d);
        proof {
            assert(out@ =~= old(out)@ + spec_decimal(n));
        }
    }
}

/// The filename of a segment created at the given microsecond timestamp.
pub fn segment_file_name(timestamp: u128) -> (r: Vec<u8>)
    ensures
        r@ == spec_segment_file_name(timestamp),
{
    let mut out: Vec<u8> = Vec::new();
    push_decimal(&mut out, timestamp);
    out.push(46u8);
    out.push(119u8);
    out.push(97u8);
    out.push(108u8);
    proof {
        assert(out@ =~= spec_segment_file_name(timestamp));
    }
    out
}

/// Whether a directory entry's name is a segment's: its extension is "wal".
/// A name without an extension is the recovery scan's reported failure.
pub fn is_segment_name(name: &[u8]) -> (r: Result<bool, StorageError>)
    ensures
        match spec_extension(name@) {
            None => r == Err::<bool, StorageError>(StorageError::DirectoryScanFailed),
            Some(ext) => r == Ok::<bool, StorageError>(ext == wal_extension()),
        },
{
    let n = name.len();
    let mut i: usize = n;
    proof {
        assert(name@.take(n as int) =~= name@);
    }
    while i > 0
        invariant
            i <= n,
            n == name@.len(),
            last_dot(name@) == last_dot(name@.take(i as int)),
        decreases i,
    {
        if name[i - 1] == 46u8 {
            proof {
                assert(name@.take(i as int).len() == i);
                assert(name@.take(i as int)[i - 1] == name@[i - 1]);
                assert(last_dot(name@.take(i as int)) == i - 1);
            }
            if i - 1 == 0 {
                return Err(StorageError::DirectoryScanFailed);
            }
            let ext_len = n - i;
            let matches_wal = ext_len == 3 && name[i] == 119u8 && name[i + 1] == 97u8 && name[i
                + 2] == 108u8;
            proof {
                let ext = name@.skip(i as int);
                if matches_wal {
                    assert(ext =~= wal_extension());
                } else {
                    if ext.len() == 3 {
                        assert(ext[0] == name@[i as int]);
                        assert(ext[1] == name@[i + 1]);
                        assert(ext[2] == name@[i + 2]);
                    }
                    assert(ext != wal_extension());
                }
            }
            return Ok(matches_wal);
        }
        proof {
            assert(name@.take(i as int).len() == i);
            assert(name@.take(i as int)[i - 1] == name@[i - 1]);
            assert(name@.take(i as int).drop_last() =~= name@.take(i - 1));
        }
        i = i - 1;
    }
    proof {
        assert(name@.take(0).len() == 0);
        assert(last_dot(name@) == -1);
    }
    Err(StorageError::DirectoryScanFailed)
}

/// A decimal representation is never empty and never holds a '.'.
proof fn lemma_decimal_digits(n: u128)
    ensures
        spec_decimal(n).len() >= 1,
        forall|i: int|
            0 <= i < spec_decimal(n).len() ==> 48 <= #[trigger] spec_decimal(n)[i] <= 57,
    decreases n,
{
    if n >= 10 {
        lemma_decimal_digits(n / 10);
        assert forall|i: int| 0 <= i < spec_decimal(n).len() implies 48 <= #[trigger] spec_decimal(
            n,
        )[i] <= 57 by {
            if i < spec_decimal(n / 10).len() {
                assert(spec_decimal(n)[i] == spec_decimal(n / 10)[i]);
            } else {
                assert(spec_decimal(n)[i] == (48 + n % 10) as u8);
            }
        }
    }
}

/// The byte strings a list of names holds.
pub open spec fn views_of(s: Seq<Vec<u8>>) -> Seq<Seq<u8>> {
    s.map_values(|v: Vec<u8>| v@)
}

/// Ascending byte-lexicographic order, equal names adjacent. For the
/// convention's decimal-timestamp names this is chronological order of
/// segment creation.
pub open spec fn names_sorted(s: Seq<Seq<u8>>) -> bool {
    forall|i: int, j: int| 0 <= i < j < s.len() ==> !lex_lt(#[trigger] s[j], #[trigger] s[i])
}

/// Where a new name belongs in a sorted list: after every name not above
/// it, before every name above it.
fn insertion_pos(out: &Vec<Vec<u8>>, x: &Vec<u8>) -> (i: usize)
    requires
        names_sorted(views_of(out@)),
    ensures
        i <= out@.len(),
        forall|j: int| 0 <= j < i ==> !lex_lt(x@, #[trigger] views_of(out@)[j]),
        forall|j: int| i <= j < out@.len() ==> lex_lt(x@, #[trigger] views_of(out@)[j]),
{
    let ghost s = views_of(out@);
    let mut i: usize = out.len();
    while i > 0
        invariant
            i <= out@.len(),
            s == views_of(out@),
            s.len() == out@.len(),
            names_sorted(s),
            forall|j: int| i <= j < s.len() ==> lex_lt(x@, #[trigger] s[j]),
        decreases i,
    {
        proof {
            assert(s[i - 1] == out@[i - 1]@);
        }
        match compare_bytes(out[i - 1].as_slice(), x.as_slice()) {
            KeyOrder::Greater => {
                i = i - 1;
            },
            KeyOrder::Less => {
                proof {
                    lemma_lex_lt_asymmetric(s[i - 1], x@);
                    assert forall|j: int| 0 <= j < i implies !lex_lt(x@, #[trigger] s[j]) by {
                        if j < i - 1 {
                            lemma_lex_lt_total(s[j], s[i - 1]);
                            if lex_lt(x@, s[j]) && lex_lt(s[j], s[i - 1]) {
                                lemma_lex_lt_transitive(x@, s[j], s[i - 1]);
                            }
                        }
                    }
                }
                return i;
            },
            KeyOrder::Equal => {
                proof {
                    lemma_lex_lt_irreflexive(x@);
                    assert forall|j: int| 0 <= j < i implies !lex_lt(x@, #[trigger] s[j]) by {
                        if j < i - 1 {
                            lemma_lex_lt_total(s[j], s[i - 1]);
                            if lex_lt(x@, s[j]) && lex_lt(s[j], s[i - 1]) {
                                lemma_lex_lt_transitive(x@, s[j], s[i - 1]);
                            }
                        }
                    }
                }
                return i;
            },
        }
    }
    i
}

/// Insert one name at its sort position, keeping the list sorted.
fn insert_sorted(out: &mut Vec<Vec<u8>>, x: Vec<u8>)
    requires
        names_sorted(views_of(old(out)@)),
    ensures
        names_sorted(views_of(final(out)@)),
        views_of(final(out)@).to_multiset() == views_of(old(out)@).to_multiset().insert(x@),
{
    let i = insertion_pos(out, &x);
    let ghost s = views_of(out@);
    let ghost xv = x@;
    out.insert(i, x);
    proof {
        let t = views_of(out@);
        assert(t =~= s.insert(i as int, xv));
        vstd::seq_lib::to_multiset_insert(s, i as int, xv);
        assert forall|p: int, q: int| 0 <= p < q < t.len() implies !lex_lt(
            #[trigger] t[q],
            #[trigger] t[p],
        ) by {
            if q < i {
                assert(t[p] == s[p] && t[q] == s[q]);
            } else if p > i {
                assert(t[p] == s[p - 1] && t[q] == s[q - 1]);
            } else if p == i && q > i {
                assert(t[p] == xv && t[q] == s[q - 1]);
                lemma_lex_lt_asymmetric(xv, s[q - 1]);
            } else if q == i {
                assert(t[q] == xv && t[p] == s[p]);
            } else {
                assert(p < i && q > i);
                assert(t[p] == s[p] && t[q] == s[q - 1]);
            }
        }
    }
}

/// Sort segment names in ascending byte-lexicographic order: the same names
/// come back, arranged so that the convention's decimal-timestamp filenames
/// stand in chronological order of segment creation.
pub fn sort_names(names: Vec<Vec<u8>>) -> (r: Vec<Vec<u8>>)
    ensures
        names_sorted(views_of(r@)),
        views_of(r@).to_multiset() == views_of(names@).to_multiset(),
{
    let ghost orig = views_of(names@);
    let mut rest = names;
    let mut out: Vec<Vec<u8>> = Vec::new();
    proof {
        assert(views_of(out@) =~= Seq::<Seq<u8>>::empty());
        assert(views_of(out@).to_multiset().len() == 0);
        assert(views_of(out@).to_multiset() =~= Multiset::<Seq<u8>>::empty());
        assert(views_of(out@).to_multiset().add(views_of(rest@).to_multiset())
            =~= views_of(rest@).to_multiset());
    }
    while rest.len() > 0
        invariant
            names_sorted(views_of(out@)),
            views_of(out@).to_multiset().add(views_of(rest@).to_multiset())
                == orig.to_multiset(),
        decreases rest@.len(),
    {
        let ghost rest_before = views_of(rest@);
        let x = match rest.pop() {
            Some(x) => x,
            None => {
                proof {
                    assert(false);
                }
                Vec::new()
            },
        };
        proof {
            assert(rest_before =~= views_of(rest@).push(x@));
            assert(rest_before.to_multiset() == views_of(rest@).to_multiset().insert(x@));
        }
        let ghost out_before = views_of(out@);
        insert_sorted(&mut out, x);
        proof {
            assert(views_of(out@).to_multiset().add(views_of(rest@).to_multiset())
                =~= out_before.to_multiset().add(rest_before.to_multiset()));
        }
    }
    proof {
        assert(views_of(rest@).len() == 0);
        assert(views_of(rest@).to_multiset().len() == 0);
        assert(views_of(rest@).to_multiset() =~= Multiset::<Seq<u8>>::empty());
        assert(views_of(out@).to_multiset().add(views_of(rest@).to_multiset())
            =~= views_of(out@).to_multiset());
    }
    out
}

/// A name the convention builds is recognized as a segment's: its extension
/// is exactly "wal".
pub proof fn lemma_segment_file_name_is_segment(timestamp: u128)
    ensures
        spec_extension(spec_segment_file_name(timestamp)) == Some(wal_extension()),
{
    lemma_decimal_digits(timestamp);
    let d = spec_decimal(timestamp);
    let full = spec_segment_file_name(timestamp);
    assert(full.len() == d.len() + 4);
    assert(full[full.len() - 1] == 108u8);
    assert(full.drop_last() =~= d + seq![dot()] + seq![119u8, 97u8]);
    let f3 = d + seq![dot()] + seq![119u8, 97u8];
    assert(f3[f3.len() - 1] == 97u8);
    assert(f3.drop_last() =~= d + seq![dot()] + seq![119u8]);
    let f2 = d + seq![dot()] + seq![119u8];
    assert(f2[f2.len() - 1] == 119u8);
    assert(f2.drop_last() =~= d + seq![dot()]);
    let f1 = d + seq![dot()];
    assert(f1[f1.len() - 1] == dot());
    assert(last_dot(f1) == d.len() as int);
    assert(last_dot(f2) == d.len() as int);
    assert(last_dot(f3) == d.len() as int);
    assert(last_dot(full) == d.len() as int);
    assert(full.skip(d.len() as int + 1) =~= wal_extension());
}

} // verus!
