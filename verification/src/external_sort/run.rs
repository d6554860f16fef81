//! Runs at rest: the bytes of a sorted run, and what they determine.

use crate::external_sort::order::views;
use crate::external_sort::{SortError, Sortable};
use vstd::prelude::*;

verus! {

/// The bytes of a run at rest: the encodings of its records, one after the
/// other.
pub open spec fn run_encoding<T: Sortable>(run: Seq<T::V>) -> Seq<u8>
    decreases run.len(),
{
    if run.len() == 0 {
        Seq::<u8>::empty()
    } else {
        T::encoding_of(run.first()) + run_encoding::<T>(run.drop_first())
    }
}

/// Appending a record to a run appends its encoding to the run's bytes.
pub proof fn lemma_run_encoding_push<T: Sortable>(run: Seq<T::V>, v: T::V)
    ensures
        run_encoding::<T>(run.push(v)) == run_encoding::<T>(run) + T::encoding_of(v),
    decreases run.len(),
{
    if run.len() == 0 {
        assert(run.push(v).drop_first() =~= run);
        assert(run_encoding::<T>(run.push(v)) =~= run_encoding::<T>(run) + T::encoding_of(v));
    } else {
        lemma_run_encoding_push::<T>(run.drop_first(), v);
        assert(run.push(v).drop_first() =~= run.drop_first().push(v));
        assert(run_encoding::<T>(run.push(v)) =~= run_encoding::<T>(run) + T::encoding_of(v));
    }
}

/// A run's bytes are at least as many as its records.
pub proof fn lemma_run_encoding_len<T: Sortable>(run: Seq<T::V>)
    ensures
        run_encoding::<T>(run).len() >= run.len(),
    decreases run.len(),
{
    if run.len() > 0 {
        T::lemma_encoding_is_not_empty(run.first());
        lemma_run_encoding_len::<T>(run.drop_first());
    }
}

/// Bytes that fit in memory, begin with the bytes of a run `a` and are the
/// bytes of a run `b` leave no choice: `b` begins with `a`, and what follows
/// the bytes of `a` is the bytes of the rest of `b`.
pub proof fn lemma_runs_align<T: Sortable>(a: Seq<T::V>, tail: Seq<u8>, b: Seq<T::V>)
    requires
        run_encoding::<T>(a) + tail == run_encoding::<T>(b),
        run_encoding::<T>(b).len() <= usize::MAX,
    ensures
        a.len() <= b.len(),
        a == b.take(a.len() as int),
        tail == run_encoding::<T>(b.skip(a.len() as int)),
    decreases a.len(),
{
    if a.len() == 0 {
        assert(b.skip(0) =~= b);
        assert(a =~= b.take(0));
        assert(run_encoding::<T>(a) + tail =~= tail);
    } else {
        let e = T::encoding_of(a.first());
        let a_rest = run_encoding::<T>(a.drop_first());
        let whole = run_encoding::<T>(b);
        T::lemma_encoding_is_not_empty(a.first());
        assert(whole.len() == e.len() + a_rest.len() + tail.len());
        assert(b.len() > 0);
        let f = T::encoding_of(b.first());
        let b_rest = run_encoding::<T>(b.drop_first());
        assert(whole == f + b_rest);
        assert(whole == (e + a_rest) + tail);
        if e.len() <= f.len() {
            assert(e.is_prefix_of(f)) by {
                assert forall|i: int| 0 <= i < e.len() implies e[i] == f[i] by {
                    assert(whole[i] == e[i]);
                    assert(whole[i] == f[i]);
                }
                assert(e =~= f.subrange(0, e.len() as int));
            }
            T::lemma_encoding_is_prefix_free(a.first(), b.first());
        } else {
            assert(f.is_prefix_of(e)) by {
                assert forall|i: int| 0 <= i < f.len() implies e[i] == f[i] by {
                    assert(whole[i] == e[i]);
                    assert(whole[i] == f[i]);
                }
                assert(f =~= e.subrange(0, f.len() as int));
            }
            T::lemma_encoding_is_prefix_free(b.first(), a.first());
        }
        assert(a.first() == b.first());
        assert(a_rest + tail =~= b_rest) by {
            assert forall|i: int| 0 <= i < b_rest.len() implies (a_rest + tail)[i] == b_rest[i] by {
                assert(whole[e.len() + i] == b_rest[i]);
                assert(whole[e.len() + i] == (a_rest + tail)[i]);
            }
        }
        lemma_runs_align::<T>(a.drop_first(), tail, b.drop_first());
        assert(a =~= b.take(a.len() as int)) by {
            assert forall|i: int| 0 <= i < a.len() implies a[i] == b[i] by {
                if i > 0 {
                    assert(a.drop_first()[i - 1] == b.drop_first().take(a.len() - 1)[i - 1]);
                }
            }
        }
        assert(b.drop_first().skip(a.len() - 1) =~= b.skip(a.len() as int));
    }
}

/// Two runs with the same bytes, which fit in memory, are the same run.
pub proof fn lemma_run_encoding_is_injective<T: Sortable>(a: Seq<T::V>, b: Seq<T::V>)
    requires
        run_encoding::<T>(a) == run_encoding::<T>(b),
        run_encoding::<T>(b).len() <= usize::MAX,
    ensures
        a == b,
{
    assert(run_encoding::<T>(a) + Seq::<u8>::empty() =~= run_encoding::<T>(a));
    lemma_runs_align::<T>(a, Seq::<u8>::empty(), b);
    lemma_run_encoding_len::<T>(b.skip(a.len() as int));
    assert(a =~= b);
}

/// Whether every record of the sequence can be encoded.
pub open spec fn all_can_encode<T: Sortable>(records: Seq<T::V>) -> bool {
    forall|i: int| 0 <= i < records.len() ==> T::can_encode(#[trigger] records[i])
}

/// Encodes a run as one chunk of bytes. It fails exactly where one of the
/// records cannot be encoded.
pub fn encode_run<T: Sortable>(run: &Vec<T>) -> (r: Result<Vec<u8>, SortError>)
    ensures
        match r {
            Ok(bytes) => all_can_encode::<T>(views(run@)) && bytes@ == run_encoding::<T>(
                views(run@),
            ),
            Err(e) => e == SortError::Encode && !all_can_encode::<T>(views(run@)),
        },
{
    let mut bytes: Vec<u8> = Vec::new();
    let mut i: usize = 0;
    while i < run.len()
        invariant
            i <= run.len(),
            bytes@ == run_encoding::<T>(views(run@).take(i as int)),
            all_can_encode::<T>(views(run@).take(i as int)),
        decreases run.len() - i,
    {
        let written = run[i].encode(&mut bytes);
        if !written {
            proof {
                assert(!T::can_encode(views(run@)[i as int]));
            }
            return Err(SortError::Encode);
        }
        proof {
            lemma_run_encoding_push::<T>(views(run@).take(i as int), run[i as int]@);
            assert(views(run@).take(i as int).push(run[i as int]@) =~= views(run@).take(i + 1));
        }
        i += 1;
    }
    proof {
        assert(views(run@).take(run.len() as int) =~= views(run@));
    }
    Ok(bytes)
}

/// Where a record was encoded and the bytes fit in memory, decoding gives it
/// back: a record whose encoding lies at the place of the encoding of `v` is
/// `v`, and ends where the encoding of `v` ends.
pub proof fn lemma_decoding_gives_back_what_was_encoded<T: Sortable>(
    before: Seq<u8>,
    v: T::V,
    after: Seq<u8>,
    decoded: T::V,
    next: int,
)
    requires
        (before + T::encoding_of(v) + after).len() <= usize::MAX,
        before.len() <= next <= (before + T::encoding_of(v) + after).len(),
        (before + T::encoding_of(v) + after).subrange(before.len() as int, next) == T::encoding_of(
            decoded,
        ),
    ensures
        decoded == v,
        next == before.len() + T::encoding_of(v).len(),
        T::encoding_of(v).is_prefix_of((before + T::encoding_of(v) + after).skip(before.len() as int)),
{
    let bytes = before + T::encoding_of(v) + after;
    let start = before.len() as int;
    let written = T::encoding_of(v);
    let read = T::encoding_of(decoded);
    assert(written =~= bytes.skip(start).subrange(0, written.len() as int));
    assert(read =~= bytes.skip(start).subrange(0, read.len() as int));
    if read.len() <= written.len() {
        assert(read =~= written.subrange(0, read.len() as int));
        T::lemma_encoding_is_prefix_free(decoded, v);
    } else {
        assert(written =~= read.subrange(0, written.len() as int));
        T::lemma_encoding_is_prefix_free(v, decoded);
    }
}

} // verus!
