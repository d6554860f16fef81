//! The k-way merge of runs at rest and one run in memory.

use crate::external_sort::memory::reversed;
use crate::external_sort::order::{is_sorted, lemma_views_empty, lemma_views_push, views};
use crate::external_sort::run::{lemma_run_encoding_push, lemma_runs_align, run_encoding};
use crate::external_sort::{SortError, Sortable};
use vstd::multiset::Multiset;
use vstd::prelude::*;
use vstd::seq_lib::*;

verus! {

/// The records of several runs together, each as often as it occurs.
pub open spec fn total_bag<V>(runs: Seq<Seq<V>>) -> Multiset<V>
    decreases runs.len(),
{
    if runs.len() == 0 {
        Multiset::<V>::empty()
    } else {
        total_bag(runs.drop_last()).add(runs.last().to_multiset())
    }
}

/// Whether each chunk holds the bytes of the run with the same index.
pub open spec fn decodes_to<T: Sortable>(chunks: Seq<Vec<u8>>, runs: Seq<Seq<T::V>>) -> bool {
    &&& runs.len() == chunks.len()
    &&& forall|c: int|
        #![trigger runs[c]]
        0 <= c < chunks.len() ==> chunks[c]@ == run_encoding::<T>(runs[c])
}

/// Whether every run is sorted.
pub open spec fn all_sorted<T: Sortable>(runs: Seq<Seq<T::V>>) -> bool {
    forall|c: int| 0 <= c < runs.len() ==> is_sorted::<T>(#[trigger] runs[c])
}

proof fn lemma_total_bag_push<V>(runs: Seq<Seq<V>>, c: int, v: V)
    requires
        0 <= c < runs.len(),
    ensures
        total_bag(runs.update(c, runs[c].push(v))) == total_bag(runs).insert(v),
    decreases runs.len(),
{
    broadcast use vstd::multiset::group_multiset_axioms;
    broadcast use group_to_multiset_ensures;

    let after = runs.update(c, runs[c].push(v));
    if c == runs.len() - 1 {
        assert(after.drop_last() =~= runs.drop_last());
        assert(total_bag(after) =~= total_bag(runs).insert(v));
    } else {
        lemma_total_bag_push(runs.drop_last(), c, v);
        assert(after.drop_last() =~= runs.drop_last().update(c, runs[c].push(v)));
        assert(total_bag(after) =~= total_bag(runs).insert(v));
    }
}

pub(crate) proof fn lemma_total_bag_of_empty_runs<V>(runs: Seq<Seq<V>>)
    requires
        forall|c: int| 0 <= c < runs.len() ==> (#[trigger] runs[c]).len() == 0,
    ensures
        total_bag(runs) == Multiset::<V>::empty(),
    decreases runs.len(),
{
    broadcast use vstd::multiset::group_multiset_axioms;

    if runs.len() > 0 {
        lemma_total_bag_of_empty_runs(runs.drop_last());
        to_multiset_len(runs.last());
        vstd::multiset::lemma_multiset_empty_len(runs.last().to_multiset());
        assert(total_bag(runs) =~= Multiset::<V>::empty());
    }
}

/// The bytes that the cursors have not read yet.
spec fn unread(chunks: Seq<Vec<u8>>, positions: Seq<usize>) -> int
    decreases positions.len(),
{
    if positions.len() == 0 {
        0
    } else {
        unread(chunks, positions.drop_last()) + (chunks[positions.len() - 1].len()
            - positions.last())
    }
}

proof fn lemma_unread_is_not_negative(chunks: Seq<Vec<u8>>, positions: Seq<usize>)
    requires
        positions.len() <= chunks.len(),
        forall|c: int| 0 <= c < positions.len() ==> #[trigger] positions[c] <= chunks[c].len(),
    ensures
        unread(chunks, positions) >= 0,
    decreases positions.len(),
{
    if positions.len() > 0 {
        lemma_unread_is_not_negative(chunks, positions.drop_last());
    }
}

proof fn lemma_unread_update(chunks: Seq<Vec<u8>>, positions: Seq<usize>, c: int, next: usize)
    requires
        0 <= c < positions.len(),
    ensures
        unread(chunks, positions.update(c, next)) == unread(chunks, positions) - (next
            - positions[c]),
    decreases positions.len(),
{
    let after = positions.update(c, next);
    if c == positions.len() - 1 {
        assert(after.drop_last() =~= positions.drop_last());
    } else {
        lemma_unread_update(chunks, positions.drop_last(), c, next);
        assert(after.drop_last() =~= positions.drop_last().update(c, next));
    }
}

/// The number of cursors that hold a record.
spec fn waiting<T>(heads: Seq<Option<T>>) -> int
    decreases heads.len(),
{
    if heads.len() == 0 {
        0
    } else {
        waiting(heads.drop_last()) + if heads.last() is Some {
            1int
        } else {
            0int
        }
    }
}

proof fn lemma_waiting_is_not_negative<T>(heads: Seq<Option<T>>)
    ensures
        waiting(heads) >= 0,
    decreases heads.len(),
{
    if heads.len() > 0 {
        lemma_waiting_is_not_negative(heads.drop_last());
    }
}

proof fn lemma_waiting_update<T>(heads: Seq<Option<T>>, c: int, head: Option<T>)
    requires
        0 <= c < heads.len(),
    ensures
        waiting(heads.update(c, head)) == waiting(heads) - (if heads[c] is Some {
            1int
        } else {
            0int
        }) + (if head is Some {
            1int
        } else {
            0int
        }),
    decreases heads.len(),
{
    let after = heads.update(c, head);
    if c == heads.len() - 1 {
        assert(after.drop_last() =~= heads.drop_last());
    } else {
        lemma_waiting_update(heads.drop_last(), c, head);
        assert(after.drop_last() =~= heads.drop_last().update(c, head));
    }
}

/// The records that a cursor has handed out or holds.
spec fn seen<T: View>(emitted: Seq<T::V>, head: Option<T>) -> Seq<T::V> {
    match head {
        Some(h) => emitted.push(h@),
        None => emitted,
    }
}

/// A cursor over a chunk has read the bytes of the records it has seen, and
/// holds no record only at the end of the chunk.
spec fn cursor_ok<T: Sortable>(
    chunk: Seq<u8>,
    position: usize,
    emitted: Seq<T::V>,
    head: Option<T>,
) -> bool {
    &&& position <= chunk.len()
    &&& chunk.take(position as int) == run_encoding::<T>(seen(emitted, head))
    &&& (head is None ==> position == chunk.len())
}

/// The cursor over the run kept in memory has seen a beginning of the run, and
/// `falling` holds the rest, last record first.
spec fn resident_ok<T: Sortable>(
    resident: Seq<T::V>,
    falling: Seq<T>,
    emitted: Seq<T::V>,
    head: Option<T>,
) -> bool {
    let m = seen(emitted, head).len();
    &&& m + falling.len() == resident.len()
    &&& seen(emitted, head) == resident.take(m as int)
    &&& forall|i: int|
        0 <= i < falling.len() ==> (#[trigger] falling[i])@ == resident[resident.len() - 1 - i]
    &&& (head is None ==> falling.len() == 0)
}

spec fn all_seen_sorted<T: Sortable>(emitted: Seq<Seq<T::V>>, heads: Seq<Option<T>>) -> bool {
    forall|c: int|
        #![trigger emitted[c]]
        0 <= c < heads.len() ==> is_sorted::<T>(seen(emitted[c], heads[c]))
}

spec fn below_heads<T: Sortable>(out: Seq<T::V>, heads: Seq<Option<T>>) -> bool {
    forall|i: int, c: int|
        #![trigger out[i], heads[c]]
        0 <= i < out.len() && 0 <= c < heads.len() && heads[c] is Some ==> T::key_of(out[i])
            <= T::key_of(heads[c].unwrap()@)
}

/// Every record handed out stands before every record that a cursor holds.
spec fn before_heads<T: Sortable>(
    out: Seq<T::V>,
    source: Seq<(int, int)>,
    heads: Seq<Option<T>>,
    emitted: Seq<Seq<T::V>>,
) -> bool {
    forall|i: int, c: int|
        #![trigger source[i], heads[c]]
        0 <= i < out.len() && 0 <= c < heads.len() && heads[c] is Some ==> merged_before::<T>(
            out[i],
            source[i],
            heads[c].unwrap()@,
            (c, emitted[c].len() as int),
        )
}

/// Bytes that stop decoding before their end are the bytes of no run.
proof fn lemma_not_a_run<T: Sortable>(bytes: Seq<u8>, position: int, before: Seq<T::V>)
    requires
        0 <= position < bytes.len() <= usize::MAX,
        bytes.take(position) == run_encoding::<T>(before),
        forall|v: T::V| !(#[trigger] T::encoding_of(v)).is_prefix_of(bytes.skip(position)),
    ensures
        forall|run: Seq<T::V>| bytes != #[trigger] run_encoding::<T>(run),
{
    assert forall|run: Seq<T::V>| bytes != #[trigger] run_encoding::<T>(run) by {
        if bytes == run_encoding::<T>(run) {
            let tail = bytes.skip(position);
            assert(bytes =~= bytes.take(position) + tail);
            lemma_runs_align::<T>(before, tail, run);
            let rest = run.skip(before.len() as int);
            assert(rest.len() > 0);
            assert(T::encoding_of(rest.first()).is_prefix_of(tail)) by {
                let e = T::encoding_of(rest.first());
                assert(tail == e + run_encoding::<T>(rest.drop_first()));
                assert(e =~= tail.subrange(0, e.len() as int));
            }
        }
    }
}

/// Reads the next record of a chunk, if the chunk holds more.
fn pull<T: Sortable>(chunk: &Vec<u8>, position: usize) -> (r: Result<Option<(T, usize)>, SortError>)
    requires
        position <= chunk.len(),
    ensures
        match r {
            Ok(None) => position == chunk.len(),
            Ok(Some((record, next))) => {
                &&& position < next <= chunk.len()
                &&& chunk@.subrange(position as int, next as int) == T::encoding_of(record@)
            },
            Err(e) => {
                &&& e == SortError::Decode
                &&& position < chunk.len()
                &&& forall|v: T::V|
                    !(#[trigger] T::encoding_of(v)).is_prefix_of(chunk@.skip(position as int))
            },
        },
{
    if position >= chunk.len() {
        return Ok(None);
    }
    match T::decode(chunk.as_slice(), position) {
        Some((record, next)) => {
            proof {
                T::lemma_encoding_is_not_empty(record@);
            }
            Ok(Some((record, next)))
        },
        None => Err(SortError::Decode),
    }
}

/// The cursor whose record has the smallest key, the first of them where
/// several have it, or `None` where no cursor holds a record.
fn smallest_head<T: Sortable>(heads: &Vec<Option<T>>) -> (r: Option<usize>)
    ensures
        match r {
            Some(c) => {
                &&& c < heads.len()
                &&& heads[c as int] is Some
                &&& forall|d: int|
                    0 <= d < heads.len() && (#[trigger] heads[d]) is Some ==> T::key_of(
                        heads[c as int].unwrap()@,
                    ) <= T::key_of(heads[d].unwrap()@)
                &&& forall|d: int|
                    0 <= d < c && (#[trigger] heads[d]) is Some ==> T::key_of(
                        heads[c as int].unwrap()@,
                    ) < T::key_of(heads[d].unwrap()@)
            },
            None => forall|d: int| 0 <= d < heads.len() ==> (#[trigger] heads[d]) is None,
        },
{
    let mut best: Option<usize> = None;
    let mut best_key: u64 = 0;
    let mut d: usize = 0;
    while d < heads.len()
        invariant
            d <= heads.len(),
            match best {
                Some(c) => {
                    &&& c < d
                    &&& heads[c as int] is Some
                    &&& best_key == T::key_of(heads[c as int].unwrap()@)
                    &&& forall|e: int|
                        0 <= e < d && (#[trigger] heads[e]) is Some ==> best_key <= T::key_of(
                            heads[e].unwrap()@,
                        )
                    &&& forall|e: int|
                        0 <= e < c && (#[trigger] heads[e]) is Some ==> best_key < T::key_of(
                            heads[e].unwrap()@,
                        )
                },
                None => forall|e: int| 0 <= e < d ==> (#[trigger] heads[e]) is None,
            },
        decreases heads.len() - d,
    {
        match &heads[d] {
            Some(h) => {
                let k = h.sort_key();
                if best.is_none() || k < best_key {
                    best = Some(d);
                    best_key = k;
                }
            },
            None => {},
        }
        d += 1;
    }
    best
}

/// Whether record `a`, which came from run `from_a.0` at place `from_a.1`,
/// stands before record `b`, which came from run `from_b.0` at place
/// `from_b.1`: its key is smaller, or the keys are the same and it came from
/// the earlier run or, in the same run, from the earlier place.
pub open spec fn merged_before<T: Sortable>(
    a: T::V,
    from_a: (int, int),
    b: T::V,
    from_b: (int, int),
) -> bool {
    ||| T::key_of(a) < T::key_of(b)
    ||| (T::key_of(a) == T::key_of(b) && from_a.0 < from_b.0)
    ||| (T::key_of(a) == T::key_of(b) && from_a.0 == from_b.0 && from_a.1 < from_b.1)
}

/// Whether each record of `out` is the record of the run and at the place
/// that `source` names for it.
pub open spec fn is_drawn_from<T: Sortable>(
    out: Seq<T::V>,
    runs: Seq<Seq<T::V>>,
    source: Seq<(int, int)>,
) -> bool {
    &&& source.len() == out.len()
    &&& forall|k: int|
        0 <= k < out.len() ==> {
            &&& 0 <= (#[trigger] source[k]).0 < runs.len()
            &&& 0 <= source[k].1 < runs[source[k].0].len()
            &&& out[k] == runs[source[k].0][source[k].1]
        }
}

/// Whether the records stand in the order of their keys, and records with the
/// same key in the order of their runs and of their places in the runs.
pub open spec fn is_in_merge_order<T: Sortable>(out: Seq<T::V>, source: Seq<(int, int)>) -> bool {
    forall|i: int, j: int|
        #![trigger source[i], source[j]]
        0 <= i < j < out.len() ==> merged_before::<T>(out[i], source[i], out[j], source[j])
}

/// Whether `out` holds the records of the runs `runs`, which are at rest in
/// `chunks`, and of the run `resident`, which counts as the last run, where
/// `source` names for each place of `out` the run and the place in the run
/// that its record came from; and whether `out` is sorted, with ties in the
/// order of the runs, where all runs are sorted.
pub open spec fn is_merge_of<T: Sortable>(
    out: Seq<T::V>,
    chunks: Seq<Vec<u8>>,
    runs: Seq<Seq<T::V>>,
    resident: Seq<T::V>,
    source: Seq<(int, int)>,
) -> bool {
    &&& decodes_to::<T>(chunks, runs)
    &&& out.to_multiset() == total_bag(runs).add(resident.to_multiset())
    &&& is_drawn_from::<T>(out, runs.push(resident), source)
    &&& (all_sorted::<T>(runs) && is_sorted::<T>(resident) ==> is_sorted::<T>(out)
        && is_in_merge_order::<T>(out, source))
}

/// Merges runs at rest and one run in memory into one sequence.
///
/// Each chunk is read through a cursor that decodes one record at a time. The
/// merge hands out, again and again, the smallest record that a cursor holds,
/// the one of the first such cursor where several hold it, and lets that
/// cursor read on. It fails exactly where some chunk does not hold the bytes
/// of a run.
pub fn merge_runs<T: Sortable>(chunks: &Vec<Vec<u8>>, resident: Vec<T>) -> (r: Result<
    Vec<T>,
    SortError,
>)
    ensures
        match r {
            Ok(out) => exists|runs: Seq<Seq<T::V>>, source: Seq<(int, int)>|
                is_merge_of::<T>(views(out@), chunks@, runs, views(resident@), source),
            Err(e) => e == SortError::Decode && forall|runs: Seq<Seq<T::V>>|
                !decodes_to::<T>(chunks@, runs),
        },
{
    let ghost kept_run = views(resident@);
    let k = chunks.len();
    let mut positions: Vec<usize> = Vec::new();
    let mut heads: Vec<Option<T>> = Vec::new();
    let ghost mut emitted: Seq<Seq<T::V>> = Seq::new(
        (k + 1) as nat,
        |c: int| Seq::<T::V>::empty(),
    );
    let mut c: usize = 0;
    while c < k
        invariant
            c <= k,
            k == chunks.len(),
            positions.len() == c,
            heads.len() == c,
            emitted.len() == k + 1,
            forall|e: int| 0 <= e <= k ==> (#[trigger] emitted[e]).len() == 0,
            forall|e: int|
                #![trigger emitted[e]]
                0 <= e < c ==> cursor_ok::<T>(chunks[e]@, positions[e], emitted[e], heads[e]),
        decreases k - c,
    {
        match pull::<T>(&chunks[c], 0) {
            Ok(Some((record, next))) => {
                proof {
                    lemma_run_encoding_push::<T>(emitted[c as int], record@);
                    assert(run_encoding::<T>(emitted[c as int]) =~= Seq::<u8>::empty());
                    assert(chunks[c as int]@.take(next as int) =~= chunks[c as int]@.subrange(
                        0,
                        next as int,
                    ));
                    assert(chunks[c as int]@.take(next as int) =~= run_encoding::<T>(
                        emitted[c as int].push(record@),
                    ));
                }
                positions.push(next);
                heads.push(Some(record));
            },
            Ok(None) => {
                proof {
                    assert(chunks[c as int]@.take(0) =~= run_encoding::<T>(emitted[c as int]));
                }
                positions.push(0);
                heads.push(None);
            },
            Err(_) => {
                proof {
                    assert(chunks[c as int]@.take(0) =~= run_encoding::<T>(emitted[c as int]));
                    lemma_not_a_run::<T>(chunks[c as int]@, 0, emitted[c as int]);
                    assert forall|runs: Seq<Seq<T::V>>| !decodes_to::<T>(chunks@, runs) by {
                        if decodes_to::<T>(chunks@, runs) {
                            assert(chunks[c as int]@ == run_encoding::<T>(runs[c as int]));
                        }
                    }
                }
                return Err(SortError::Decode);
            },
        }
        c += 1;
    }
    let mut falling = reversed(resident);
    let ghost falling_before = falling@;
    let first = falling.pop();
    heads.push(first);
    proof {
        assert(views(resident@).len() == resident@.len());
        if first is Some {
            assert(seen::<T>(emitted[k as int], first) =~= kept_run.take(1));
        } else {
            assert(seen::<T>(emitted[k as int], first) =~= kept_run.take(0));
        }
        assert(resident_ok::<T>(kept_run, falling@, emitted[k as int], heads[k as int]));
        lemma_total_bag_of_empty_runs(emitted);
    }
    let mut out: Vec<T> = Vec::new();
    let ghost mut source: Seq<(int, int)> = Seq::empty();
    proof {
        lemma_views_empty(out@);
        assert forall|e: int| 0 <= e < positions.len() implies #[trigger] positions[e]
            <= chunks[e].len() by {
            assert(cursor_ok::<T>(chunks[e]@, positions[e], emitted[e], heads[e]));
        }
        lemma_unread_is_not_negative(chunks@, positions@);
        lemma_waiting_is_not_negative(heads@);
    }
    loop
        invariant
            k == chunks.len(),
            kept_run == views(resident@),
            positions.len() == k,
            heads.len() == k + 1,
            emitted.len() == k + 1,
            forall|e: int|
                #![trigger emitted[e]]
                0 <= e < k ==> cursor_ok::<T>(chunks[e]@, positions[e], emitted[e], heads[e]),
            resident_ok::<T>(kept_run, falling@, emitted[k as int], heads[k as int]),
            views(out@).to_multiset() == total_bag(emitted),
            all_seen_sorted::<T>(emitted, heads@) ==> is_sorted::<T>(views(out@)) && below_heads::<
                T,
            >(views(out@), heads@),
            is_drawn_from::<T>(views(out@), emitted, source),
            all_seen_sorted::<T>(emitted, heads@) ==> is_in_merge_order::<T>(views(out@), source)
                && before_heads::<T>(views(out@), source, heads@, emitted),
            unread(chunks@, positions@) >= 0,
            waiting(heads@) >= 0,
        ensures
            forall|d: int| 0 <= d < heads.len() ==> (#[trigger] heads[d]) is None,
        decreases unread(chunks@, positions@) + falling.len() + waiting(heads@),
    {
        let c = match smallest_head(&heads) {
            Some(c) => c,
            None => {
                break ;
            },
        };
        let ghost positions_before = positions@;
        let ghost heads_before = heads@;
        let ghost emitted_before = emitted;
        let ghost out_before = out@;
        let ghost falling_then = falling@;
        let ghost x = heads[c as int].unwrap();
        let ghost source_before = source;
        let next_head: Option<T> = if c < k {
            assert(cursor_ok::<T>(
                chunks[c as int]@,
                positions[c as int],
                emitted[c as int],
                heads[c as int],
            ));
            match pull::<T>(&chunks[c], positions[c]) {
                Ok(Some((record, next))) => {
                    proof {
                        let chunk = chunks[c as int]@;
                        let before = seen::<T>(emitted[c as int], heads[c as int]);
                        lemma_run_encoding_push::<T>(before, record@);
                        assert(chunk.take(next as int) =~= chunk.take(positions[c as int] as int)
                            + chunk.subrange(positions[c as int] as int, next as int));
                        lemma_unread_update(chunks@, positions@, c as int, next);
                    }
                    positions.set(c, next);
                    Some(record)
                },
                Ok(None) => None,
                Err(_) => {
                    proof {
                        lemma_not_a_run::<T>(
                            chunks[c as int]@,
                            positions[c as int] as int,
                            seen::<T>(emitted[c as int], heads[c as int]),
                        );
                        assert forall|runs: Seq<Seq<T::V>>| !decodes_to::<T>(chunks@, runs) by {
                            if decodes_to::<T>(chunks@, runs) {
                                assert(chunks[c as int]@ == run_encoding::<T>(runs[c as int]));
                            }
                        }
                    }
                    return Err(SortError::Decode);
                },
            }
        } else {
            falling.pop()
        };
        heads.push(next_head);
        let taken = heads.swap_remove(c);
        proof {
            assert(heads@ =~= heads_before.update(c as int, next_head));
            assert(taken == Some(x));
        }
        match taken {
            Some(record) => {
                out.push(record);
            },
            None => {},
        }
        proof {
            emitted = emitted_before.update(c as int, emitted_before[c as int].push(x@));
            source = source_before.push((c as int, emitted_before[c as int].len() as int));
            lemma_views_push(out_before, x);
            assert(is_drawn_from::<T>(views(out@), emitted, source)) by {
                assert forall|e: int| 0 <= e < views(out@).len() implies {
                    &&& 0 <= (#[trigger] source[e]).0 < emitted.len()
                    &&& 0 <= source[e].1 < emitted[source[e].0].len()
                    &&& views(out@)[e] == emitted[source[e].0][source[e].1]
                } by {
                    if e < out_before.len() {
                        assert(source[e] == source_before[e]);
                        assert(views(out@)[e] == views(out_before)[e]);
                        let run = source_before[e].0;
                        if run == c {
                            assert(emitted[run][source[e].1] == emitted_before[run][source[e].1]);
                        } else {
                            assert(emitted[run] == emitted_before[run]);
                        }
                    }
                }
            }
            lemma_total_bag_push(emitted_before, c as int, x@);
            lemma_waiting_update(heads_before, c as int, next_head);
            let before = seen::<T>(emitted_before[c as int], heads_before[c as int]);
            assert(before == emitted[c as int]);
            assert forall|e: int| #![trigger emitted[e]] 0 <= e < k implies cursor_ok::<T>(
                chunks[e]@,
                positions[e],
                emitted[e],
                heads[e],
            ) by {
                if e != c {
                    assert(cursor_ok::<T>(
                        chunks[e]@,
                        positions_before[e],
                        emitted_before[e],
                        heads_before[e],
                    ));
                }
            }
            if c == k {
                let m = before.len() as int;
                if next_head is Some {
                    assert(falling_then.len() > 0);
                    assert(next_head.unwrap()@ == kept_run[m]);
                    assert(seen::<T>(emitted[k as int], heads[k as int]) =~= kept_run.take(m + 1));
                }
                assert(resident_ok::<T>(kept_run, falling@, emitted[k as int], heads[k as int]));
            } else {
                assert(emitted[k as int] == emitted_before[k as int]);
                assert(heads[k as int] == heads_before[k as int]);
            }
            if all_seen_sorted::<T>(emitted, heads@) {
                assert forall|e: int| #![trigger emitted_before[e]] 0 <= e < heads_before.len()
                    implies is_sorted::<T>(seen(emitted_before[e], heads_before[e])) by {
                    let now = seen::<T>(emitted[e], heads[e]);
                    assert(is_sorted::<T>(now));
                    if e == c {
                        assert forall|i: int, j: int|
                            #![trigger before[i], before[j]]
                            0 <= i <= j < before.len() implies T::key_of(before[i]) <= T::key_of(
                            before[j],
                        ) by {
                            assert(now[i] == before[i]);
                            assert(now[j] == before[j]);
                        }
                    }
                }
                assert(is_sorted::<T>(views(out_before)));
                assert(below_heads::<T>(views(out_before), heads_before));
                assert(is_in_merge_order::<T>(views(out_before), source_before));
                assert(before_heads::<T>(
                    views(out_before),
                    source_before,
                    heads_before,
                    emitted_before,
                ));
                let after = views(out@);
                assert(after == views(out_before).push(x@));
                let last = after.len() - 1;
                let place = emitted_before[c as int].len() as int;
                assert forall|i: int, j: int|
                    #![trigger source[i], source[j]]
                    0 <= i < j < after.len() implies merged_before::<T>(
                    after[i],
                    source[i],
                    after[j],
                    source[j],
                ) by {
                    assert(source[i] == source_before[i]);
                    assert(after[i] == views(out_before)[i]);
                    if j == last {
                        assert(merged_before::<T>(
                            views(out_before)[i],
                            source_before[i],
                            heads_before[c as int].unwrap()@,
                            (c as int, place),
                        ));
                    } else {
                        assert(source[j] == source_before[j]);
                        assert(merged_before::<T>(
                            views(out_before)[i],
                            source_before[i],
                            views(out_before)[j],
                            source_before[j],
                        ));
                    }
                }
                assert forall|i: int, d: int|
                    #![trigger source[i], heads@[d]]
                    0 <= i < after.len() && 0 <= d < heads.len() && heads@[d] is Some implies merged_before::<
                    T,
                >(after[i], source[i], heads@[d].unwrap()@, (d, emitted[d].len() as int)) by {
                    let now = seen::<T>(emitted[c as int], heads[c as int]);
                    if d == c {
                        let end = now.len() - 1;
                        assert(T::key_of(now[end - 1]) <= T::key_of(now[end]));
                        assert(now[end - 1] == x@);
                        assert(now[end] == heads@[d].unwrap()@);
                        assert(emitted[d].len() == place + 1);
                        if i < last {
                            assert(source[i] == source_before[i]);
                            assert(merged_before::<T>(
                                views(out_before)[i],
                                source_before[i],
                                heads_before[c as int].unwrap()@,
                                (c as int, place),
                            ));
                        }
                    } else {
                        assert(heads@[d] == heads_before[d]);
                        assert(emitted[d] == emitted_before[d]);
                        assert(T::key_of(x@) <= T::key_of(heads_before[d].unwrap()@));
                        if d < c {
                            assert(T::key_of(x@) < T::key_of(heads_before[d].unwrap()@));
                        }
                        if i < last {
                            assert(source[i] == source_before[i]);
                            assert(merged_before::<T>(
                                views(out_before)[i],
                                source_before[i],
                                heads_before[d].unwrap()@,
                                (d, emitted_before[d].len() as int),
                            ));
                        }
                    }
                }
                assert forall|i: int, j: int|
                    #![trigger after[i], after[j]]
                    0 <= i <= j < after.len() implies T::key_of(after[i]) <= T::key_of(
                    after[j],
                ) by {
                    if j == after.len() - 1 && i < j {
                        assert(T::key_of(views(out_before)[i]) <= T::key_of(
                            heads_before[c as int].unwrap()@,
                        ));
                    } else if i < j {
                        assert(T::key_of(views(out_before)[i]) <= T::key_of(
                            views(out_before)[j],
                        ));
                    }
                }
                assert forall|i: int, d: int|
                    #![trigger after[i], heads@[d]]
                    0 <= i < after.len() && 0 <= d < heads.len() && heads@[d] is Some implies T::key_of(
                    after[i],
                ) <= T::key_of(heads@[d].unwrap()@) by {
                    let now = seen::<T>(emitted[c as int], heads[c as int]);
                    if d == c {
                        let last = now.len() - 1;
                        assert(T::key_of(now[last - 1]) <= T::key_of(now[last]));
                        assert(now[last - 1] == x@);
                        assert(now[last] == heads@[d].unwrap()@);
                        if i < after.len() - 1 {
                            assert(T::key_of(views(out_before)[i]) <= T::key_of(
                                heads_before[c as int].unwrap()@,
                            ));
                        }
                    } else {
                        assert(heads@[d] == heads_before[d]);
                        assert(T::key_of(x@) <= T::key_of(heads_before[d].unwrap()@));
                        if i < after.len() - 1 {
                            assert(T::key_of(views(out_before)[i]) <= T::key_of(
                                heads_before[d].unwrap()@,
                            ));
                        }
                    }
                }
            }
            assert forall|e: int| 0 <= e < positions.len() implies #[trigger] positions[e]
                <= chunks[e].len() by {
                assert(cursor_ok::<T>(chunks[e]@, positions[e], emitted[e], heads[e]));
            }
            lemma_unread_is_not_negative(chunks@, positions@);
            lemma_waiting_is_not_negative(heads@);
        }
    }
    proof {
        let runs = emitted.take(k as int);
        assert(emitted.drop_last() =~= runs);
        assert(emitted.last() == emitted[k as int]);
        assert(heads[k as int] is None);
        assert(emitted[k as int] =~= kept_run);
        assert forall|e: int| #![trigger runs[e]] 0 <= e < chunks.len() implies chunks[e]@
            == run_encoding::<T>(runs[e]) by {
            assert(cursor_ok::<T>(chunks[e]@, positions[e], emitted[e], heads[e]));
            assert(heads[e] is None);
            assert(chunks[e]@.take(positions[e] as int) =~= chunks[e]@);
        }
        if all_sorted::<T>(runs) && is_sorted::<T>(kept_run) {
            assert forall|e: int| #![trigger emitted[e]] 0 <= e < heads.len() implies is_sorted::<T>(
                seen(emitted[e], heads[e]),
            ) by {
                assert(heads[e] is None);
                if e < k {
                    assert(emitted[e] == runs[e]);
                }
            }
        }
        assert(decodes_to::<T>(chunks@, runs));
        assert(views(out@).to_multiset() == total_bag(runs).add(kept_run.to_multiset()));
        assert(all_sorted::<T>(runs) && is_sorted::<T>(kept_run) ==> is_sorted::<T>(views(out@))
            && is_in_merge_order::<T>(views(out@), source));
        assert(emitted =~= runs.push(kept_run));
        assert(is_merge_of::<T>(views(out@), chunks@, runs, views(resident@), source));
        assert(exists|runs: Seq<Seq<T::V>>, source: Seq<(int, int)>|
            is_merge_of::<T>(views(out@), chunks@, runs, views(resident@), source));
    }
    let ghost merged = out@;
    let r: Result<Vec<T>, SortError> = Ok(out);
    assert(r.unwrap()@ == merged);
    r
}

} // verus!
