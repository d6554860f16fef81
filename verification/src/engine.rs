//! The stages of the all-pairs engine: scoring every pair of rows, ordering
//! the scored pairs, ranking, filtering by the magnitude of the coefficient,
//! and correcting the p-values.

use crate::adjustment::{
    adjusted, lemma_adjusted_is_probability, lemma_rank_based_is_monotone,
    lemma_running_minimum_is_lower_bound, lemma_running_minimum_is_reached, AdjustmentMethod,
};
use crate::double::{
    abs_at_least, clamped_to_one, is_probability, lemma_reaches_zero, magnitude_reaches,
    ZERO_BITS,
};
use crate::experiment::{Batch, CorResult, CorResultView};
use crate::external_sort::order::{is_sorted_permutation, stable_sorted, views};
use crate::external_sort::ExternalSorter;
use vstd::prelude::*;
use vstd::seq_lib::*;

verus! {

/// Why the engine gave no result.
#[derive(Clone, Copy, Debug, PartialEq, Eq)]
pub enum EngineError {
    /// Some row does not hold the stated number of samples.
    ShapeMismatch,
}

/// Whether every row of the matrix holds `number_of_columns` samples.
pub open spec fn has_shape(matrix: Seq<(String, Vec<u64>)>, number_of_columns: usize) -> bool {
    forall|i: int| 0 <= i < matrix.len() ==> (#[trigger] matrix[i]).1@.len() == number_of_columns
}

/// Tells whether every row of the matrix holds `number_of_columns` samples.
pub fn check_shape(matrix: &Batch, number_of_columns: usize) -> (ok: bool)
    ensures
        ok == has_shape(matrix@, number_of_columns),
{
    let mut i: usize = 0;
    while i < matrix.len()
        invariant
            i <= matrix.len(),
            forall|e: int| 0 <= e < i ==> (#[trigger] matrix[e]).1@.len() == number_of_columns,
        decreases matrix.len() - i,
    {
        if matrix[i].1.len() != number_of_columns {
            return false;
        }
        i += 1;
    }
    true
}

/// The place of the pair of outer row `i` and inner row `j` among all pairs,
/// which are formed outer row by outer row.
pub open spec fn place_in_rows(i: int, j: int, inner_len: int) -> int {
    i * inner_len + j
}

/// The place of the pair of row `a` of the first matrix and row `b` of the
/// second among all pairs. The pairs are formed row by row of the outer
/// matrix, which is the first matrix where it has more rows than the second,
/// and the second else; the other matrix is walked once for each of its rows.
pub open spec fn pair_position(a: int, b: int, len_m1: int, len_m3: int) -> int {
    if len_m1 > len_m3 {
        place_in_rows(a, b, len_m3)
    } else {
        place_in_rows(b, a, len_m1)
    }
}

/// Whether the record is the score of a row of the first matrix and a row of
/// the second: it carries the label of the first as its first label and that
/// of the second as its second, a coefficient and a p-value that `correlate`
/// may return for their samples, and no corrected p-value.
pub open spec fn is_score_of<C: Fn(&Vec<u64>, &Vec<u64>) -> (u64, u64)>(
    record: CorResultView,
    first: (String, Vec<u64>),
    second: (String, Vec<u64>),
    correlate: C,
) -> bool {
    &&& record.gene == first.0@
    &&& record.gem == second.0@
    &&& record.adjusted_p_value is None
    &&& call_ensures(correlate, (&first.1, &second.1), (record.correlation, record.p_value))
}

/// Whether `scored` holds the score of every pair of a row of the first
/// matrix and a row of the second, each at its place.
pub open spec fn is_scoring<C: Fn(&Vec<u64>, &Vec<u64>) -> (u64, u64)>(
    scored: Seq<CorResultView>,
    m1: Seq<(String, Vec<u64>)>,
    m3: Seq<(String, Vec<u64>)>,
    correlate: C,
) -> bool {
    &&& scored.len() == m1.len() * m3.len()
    &&& forall|a: int, b: int|
        0 <= a < m1.len() && 0 <= b < m3.len() ==> is_score_of(
            #[trigger] scored[pair_position(a, b, m1.len() as int, m3.len() as int)],
            m1[a],
            m3[b],
            correlate,
        )
}

/// The place of a pair lies among the places of all pairs, in the part of its
/// outer row.
pub proof fn lemma_place_in_rows_is_in_range(i: int, j: int, outer_len: int, inner_len: int)
    requires
        0 <= i < outer_len,
        0 <= j < inner_len,
    ensures
        0 <= place_in_rows(i, j, inner_len) < outer_len * inner_len,
        place_in_rows(i, j, inner_len) < (i + 1) * inner_len,
        i * inner_len <= place_in_rows(i, j, inner_len),
{
    assert(0 <= i * inner_len) by (nonlinear_arith)
        requires
            0 <= i,
            0 <= inner_len,
    ;
    assert((i + 1) * inner_len == i * inner_len + inner_len) by (nonlinear_arith);
    assert((i + 1) * inner_len <= outer_len * inner_len) by (nonlinear_arith)
        requires
            i + 1 <= outer_len,
            0 <= inner_len,
    ;
}

/// The row of the first matrix in the pair of outer row `i` and inner row
/// `j`.
spec fn first_row(i: int, j: int, first_is_outer: bool) -> int {
    if first_is_outer {
        i
    } else {
        j
    }
}

/// The row of the second matrix in the pair of outer row `i` and inner row
/// `j`.
spec fn second_row(i: int, j: int, first_is_outer: bool) -> int {
    if first_is_outer {
        j
    } else {
        i
    }
}

/// Scores every pair of a row of the first matrix and a row of the second.
/// The matrix with more rows is walked once, the second where both have as
/// many, and the other once for each row of it; the pairs come in that
/// order. Whichever matrix is the outer one, a pair carries the label of its
/// row of the first matrix first.
pub fn score_pairs<C: Fn(&Vec<u64>, &Vec<u64>) -> (u64, u64)>(
    m1: &Batch,
    m3: &Batch,
    correlate: &C,
) -> (scored: Vec<CorResult>)
    requires
        forall|a: int, b: int|
            0 <= a < m1.len() && 0 <= b < m3.len() ==> call_requires(
                *correlate,
                (&(#[trigger] m1[a]).1, &(#[trigger] m3[b]).1),
            ),
    ensures
        is_scoring(views(scored@), m1@, m3@, *correlate),
{
    let first_is_outer = m1.len() > m3.len();
    let outer_len = if first_is_outer {
        m1.len()
    } else {
        m3.len()
    };
    let inner_len = if first_is_outer {
        m3.len()
    } else {
        m1.len()
    };
    let ghost n = inner_len as int;
    let mut scored: Vec<CorResult> = Vec::new();
    let mut i: usize = 0;
    while i < outer_len
        invariant
            i <= outer_len,
            n == inner_len,
            first_is_outer == (m1.len() > m3.len()),
            first_is_outer ==> outer_len == m1.len() && inner_len == m3.len(),
            !first_is_outer ==> outer_len == m3.len() && inner_len == m1.len(),
            scored.len() == i * n,
            forall|a: int, b: int|
                0 <= a < m1.len() && 0 <= b < m3.len() ==> call_requires(
                    *correlate,
                    (&(#[trigger] m1[a]).1, &(#[trigger] m3[b]).1),
                ),
            forall|x: int, y: int|
                0 <= x < i && 0 <= y < n ==> is_score_of(
                    (#[trigger] scored[place_in_rows(x, y, n)])@,
                    m1[first_row(x, y, first_is_outer)],
                    m3[second_row(x, y, first_is_outer)],
                    *correlate,
                ),
        decreases outer_len - i,
    {
        let mut j: usize = 0;
        while j < inner_len
            invariant
                i < outer_len,
                j <= inner_len,
                n == inner_len,
                first_is_outer == (m1.len() > m3.len()),
                first_is_outer ==> outer_len == m1.len() && inner_len == m3.len(),
                !first_is_outer ==> outer_len == m3.len() && inner_len == m1.len(),
                scored.len() == i * n + j,
                forall|a: int, b: int|
                    0 <= a < m1.len() && 0 <= b < m3.len() ==> call_requires(
                        *correlate,
                        (&(#[trigger] m1[a]).1, &(#[trigger] m3[b]).1),
                    ),
                forall|x: int, y: int|
                    0 <= x < i && 0 <= y < n ==> is_score_of(
                        (#[trigger] scored[place_in_rows(x, y, n)])@,
                        m1[first_row(x, y, first_is_outer)],
                        m3[second_row(x, y, first_is_outer)],
                        *correlate,
                    ),
                forall|y: int|
                    0 <= y < j ==> is_score_of(
                        (#[trigger] scored[place_in_rows(i as int, y, n)])@,
                        m1[first_row(i as int, y, first_is_outer)],
                        m3[second_row(i as int, y, first_is_outer)],
                        *correlate,
                    ),
            decreases inner_len - j,
        {
            let ghost before = scored@;
            let a = if first_is_outer {
                i
            } else {
                j
            };
            let b = if first_is_outer {
                j
            } else {
                i
            };
            let (correlation, p_value) = correlate(&m1[a].1, &m3[b].1);
            scored.push(
                CorResult {
                    gene: m1[a].0.clone(),
                    gem: m3[b].0.clone(),
                    correlation,
                    p_value,
                    adjusted_p_value: None,
                },
            );
            proof {
                assert forall|x: int, y: int| 0 <= x < i && 0 <= y < n implies is_score_of(
                    (#[trigger] scored[place_in_rows(x, y, n)])@,
                    m1[first_row(x, y, first_is_outer)],
                    m3[second_row(x, y, first_is_outer)],
                    *correlate,
                ) by {
                    lemma_place_in_rows_is_in_range(x, y, i as int, n);
                    assert(scored[place_in_rows(x, y, n)] == before[place_in_rows(x, y, n)]);
                }
                assert forall|y: int| 0 <= y < j + 1 implies is_score_of(
                    (#[trigger] scored[place_in_rows(i as int, y, n)])@,
                    m1[first_row(i as int, y, first_is_outer)],
                    m3[second_row(i as int, y, first_is_outer)],
                    *correlate,
                ) by {
                    if y < j {
                        assert(scored[place_in_rows(i as int, y, n)] == before[place_in_rows(
                            i as int,
                            y,
                            n,
                        )]);
                    }
                }
            }
            j += 1;
        }
        proof {
            assert((i + 1) * n == i * n + n) by (nonlinear_arith);
        }
        i += 1;
    }
    proof {
        assert(outer_len * inner_len == m1.len() * m3.len()) by (nonlinear_arith)
            requires
                (outer_len == m1.len() && inner_len == m3.len()) || (outer_len == m3.len()
                    && inner_len == m1.len()),
        ;
        assert forall|a: int, b: int| 0 <= a < m1.len() && 0 <= b < m3.len() implies is_score_of(
            #[trigger] views(scored@)[pair_position(a, b, m1@.len() as int, m3@.len() as int)],
            m1@[a],
            m3@[b],
            *correlate,
        ) by {
            let x = if first_is_outer {
                a
            } else {
                b
            };
            let y = if first_is_outer {
                b
            } else {
                a
            };
            lemma_place_in_rows_is_in_range(x, y, outer_len as int, n);
            assert(pair_position(a, b, m1@.len() as int, m3@.len() as int) == place_in_rows(
                x,
                y,
                n,
            ));
            assert(is_score_of(
                scored[place_in_rows(x, y, n)]@,
                m1[first_row(x, y, first_is_outer)],
                m3[second_row(x, y, first_is_outer)],
                *correlate,
            ));
        }
    }
    scored
}

/// The scored pairs made ready for ranking: sorted by p-value for a
/// rank-based correction, pairs with the same p-value in the order of their
/// scoring, and untouched for Bonferroni's.
pub open spec fn ordered_for(scored: Seq<CorResultView>, method: AdjustmentMethod) -> Seq<
    CorResultView,
> {
    if method.is_rank_based() {
        stable_sorted::<CorResult>(scored)
    } else {
        scored
    }
}

/// Makes the scored pairs ready for ranking: sorts them by p-value for a
/// rank-based correction, with a buffer of `sort_buf_size` records, and leaves
/// them as they are for Bonferroni's. A scored pair can always be encoded, so
/// the sort does not fail, whatever the size of the buffer.
pub fn order_for_ranking(scored: Vec<CorResult>, sort_buf_size: u64, method: AdjustmentMethod) -> (ordered:
    Vec<CorResult>)
    ensures
        views(ordered@) == ordered_for(views(scored@), method),
        ordered@.len() == scored@.len(),
        method.is_rank_based() ==> is_sorted_permutation::<CorResult>(
            views(ordered@),
            views(scored@),
        ),
{
    if method.needs_sorted_input() {
        let budget: usize = if sort_buf_size > usize::MAX as u64 {
            usize::MAX
        } else {
            sort_buf_size as usize
        };
        let sorter = ExternalSorter::new(budget);
        let sorted = sorter.sort(scored);
        proof {
            if sorted is Ok {
                to_multiset_len(views(sorted.unwrap()@));
                to_multiset_len(views(scored@));
            }
        }
        sorted.unwrap()
    } else {
        scored
    }
}

/// The records whose coefficient reaches the threshold in magnitude, each
/// with its rank: its place, counted from zero, among all records.
pub open spec fn survivors(ordered: Seq<CorResultView>, threshold: u64) -> Seq<
    (int, CorResultView),
>
    decreases ordered.len(),
{
    if ordered.len() == 0 {
        Seq::empty()
    } else {
        let before = survivors(ordered.drop_last(), threshold);
        if magnitude_reaches(ordered.last().correlation, threshold) {
            before.push((ordered.len() - 1, ordered.last()))
        } else {
            before
        }
    }
}

/// The ranks and views of ranked records.
pub open spec fn ranked_views(kept: Seq<(usize, CorResult)>) -> Seq<(int, CorResultView)> {
    kept.map_values(|entry: (usize, CorResult)| (entry.0 as int, entry.1@))
}

/// A survivor's rank is its place among all records, it is the record at
/// that place, and its coefficient reaches the threshold. Ranks grow along
/// the survivors, which are no more than the records.
pub proof fn lemma_survivors_keep_their_place(
    ordered: Seq<CorResultView>,
    threshold: u64,
    k: int,
)
    requires
        0 <= k < survivors(ordered, threshold).len(),
    ensures
        survivors(ordered, threshold).len() <= ordered.len(),
        k <= survivors(ordered, threshold)[k].0 < ordered.len(),
        ordered[survivors(ordered, threshold)[k].0] == survivors(ordered, threshold)[k].1,
        magnitude_reaches(survivors(ordered, threshold)[k].1.correlation, threshold),
        forall|earlier: int|
            0 <= earlier < k ==> (#[trigger] survivors(ordered, threshold)[earlier]).0
                < survivors(ordered, threshold)[k].0,
    decreases ordered.len(),
{
    if ordered.len() > 0 {
        let before = survivors(ordered.drop_last(), threshold);
        lemma_survivors_len(ordered.drop_last(), threshold);
        if k < before.len() {
            lemma_survivors_keep_their_place(ordered.drop_last(), threshold, k);
        } else {
            assert forall|earlier: int| 0 <= earlier < k implies (#[trigger] survivors(
                ordered,
                threshold,
            )[earlier]).0 < survivors(ordered, threshold)[k].0 by {
                lemma_survivors_keep_their_place(ordered.drop_last(), threshold, earlier);
            }
        }
    }
}

/// The survivors are no more than the records.
pub proof fn lemma_survivors_len(ordered: Seq<CorResultView>, threshold: u64)
    ensures
        survivors(ordered, threshold).len() <= ordered.len(),
    decreases ordered.len(),
{
    if ordered.len() > 0 {
        lemma_survivors_len(ordered.drop_last(), threshold);
    }
}

/// A record with its place is among the survivors exactly if its coefficient
/// reaches the threshold.
pub proof fn lemma_survivors_are_those_that_reach(
    ordered: Seq<CorResultView>,
    threshold: u64,
    rank: int,
)
    requires
        0 <= rank < ordered.len(),
    ensures
        survivors(ordered, threshold).contains((rank, ordered[rank])) <==> magnitude_reaches(
            ordered[rank].correlation,
            threshold,
        ),
    decreases ordered.len(),
{
    let all = survivors(ordered, threshold);
    let before = survivors(ordered.drop_last(), threshold);
    let entry = (rank, ordered[rank]);
    if rank == ordered.len() - 1 {
        if magnitude_reaches(ordered.last().correlation, threshold) {
            assert(all[all.len() - 1] == entry);
        } else {
            if all.contains(entry) {
                let k = choose|k: int| 0 <= k < all.len() && all[k] == entry;
                lemma_survivors_keep_their_place(ordered.drop_last(), threshold, k);
            }
        }
    } else {
        lemma_survivors_are_those_that_reach(ordered.drop_last(), threshold, rank);
        if before.contains(entry) {
            let k = choose|k: int| 0 <= k < before.len() && before[k] == entry;
            assert(all[k] == entry);
        }
        if all.contains(entry) {
            let k = choose|k: int| 0 <= k < all.len() && all[k] == entry;
            if k < before.len() {
                assert(before[k] == entry);
            }
        }
    }
}

/// Whatever the threshold, a survivor carries the rank that it has where the
/// threshold is zero: filtering renumbers nothing.
pub proof fn lemma_filtering_keeps_ranks(ordered: Seq<CorResultView>, threshold: u64, k: int)
    requires
        0 <= k < survivors(ordered, threshold).len(),
    ensures
        survivors(ordered, ZERO_BITS).contains(survivors(ordered, threshold)[k]),
{
    let entry = survivors(ordered, threshold)[k];
    lemma_survivors_keep_their_place(ordered, threshold, k);
    lemma_reaches_zero(entry.1.correlation);
    lemma_survivors_are_those_that_reach(ordered, ZERO_BITS, entry.0);
}

/// Filtering does not lower a correction. Take two runs over the same ordered
/// pairs, one with a threshold and one with the threshold zero, whose scaling
/// gives the same value for the same pair with the same rank. Then a survivor
/// of the first run is a survivor of the second, with the same rank, and its
/// corrected p-value in the first run is not below that in the second, and
/// not above its scaled value limited to one.
pub proof fn lemma_filtering_does_not_lower_the_correction(
    ordered: Seq<CorResultView>,
    threshold: u64,
    method: AdjustmentMethod,
    scaled_some: Seq<u64>,
    scaled_all: Seq<u64>,
    i: int,
) -> (k: int)
    requires
        scaled_some.len() == survivors(ordered, threshold).len(),
        scaled_all.len() == survivors(ordered, ZERO_BITS).len(),
        0 <= i < scaled_some.len(),
        forall|a: int, b: int|
            0 <= a < scaled_some.len() && 0 <= b < scaled_all.len() && survivors(
                ordered,
                threshold,
            )[a] == survivors(ordered, ZERO_BITS)[b] ==> #[trigger] scaled_some[a]
                == #[trigger] scaled_all[b],
    ensures
        0 <= k < scaled_all.len(),
        survivors(ordered, ZERO_BITS)[k] == survivors(ordered, threshold)[i],
        adjusted(method, scaled_all)[k] <= adjusted(method, scaled_some)[i],
        adjusted(method, scaled_some)[i] <= clamped_to_one(scaled_some[i]),
{
    let some = survivors(ordered, threshold);
    let all = survivors(ordered, ZERO_BITS);
    lemma_filtering_keeps_ranks(ordered, threshold, i);
    let k = choose|k: int| 0 <= k < all.len() && all[k] == some[i];
    assert(scaled_some[i] == scaled_all[k]);
    lemma_adjusted_is_probability(method, scaled_some, i);
    if method.is_rank_based() {
        let j = lemma_running_minimum_is_reached(scaled_some, i);
        lemma_filtering_keeps_ranks(ordered, threshold, j);
        let kj = choose|kj: int| 0 <= kj < all.len() && all[kj] == some[j];
        assert(scaled_some[j] == scaled_all[kj]);
        lemma_survivors_keep_their_place(ordered, threshold, j);
        if kj < k {
            lemma_survivors_keep_their_place(ordered, ZERO_BITS, k);
            assert(all[kj].0 < all[k].0);
            if i < j {
                assert(some[i].0 < some[j].0);
            }
        }
        lemma_running_minimum_is_lower_bound(scaled_all, k, kj);
    }
    k
}

/// Ranks the records by their place, from zero, and keeps those whose
/// coefficient reaches the threshold in magnitude, each with its rank.
pub fn rank_and_filter(ordered: Vec<CorResult>, threshold: u64) -> (kept: Vec<(usize, CorResult)>)
    ensures
        ranked_views(kept@) == survivors(views(ordered@), threshold),
{
    let mut kept: Vec<(usize, CorResult)> = Vec::new();
    let mut rank: usize = 0;
    let count = ordered.len();
    proof {
        assert(views(ordered@.take(0)) =~= Seq::<CorResultView>::empty());
        assert(ranked_views(kept@) =~= survivors(views(ordered@.take(0)), threshold));
    }
    for record in it: ordered
        invariant
            it.seq() == ordered@,
            count == ordered@.len(),
            rank == it.index(),
            ranked_views(kept@) == survivors(views(ordered@.take(it.index() as int)), threshold),
    {
        let ghost kept_before = kept@;
        proof {
            let longer = views(ordered@.take(it.index() + 1));
            assert(longer.drop_last() =~= views(ordered@.take(it.index() as int)));
            assert(longer.last() == record@);
        }
        if abs_at_least(record.correlation, threshold) {
            kept.push((rank, record));
            proof {
                assert(ranked_views(kept@) =~= ranked_views(kept_before).push(
                    (rank as int, record@),
                ));
            }
        }
        rank += 1;
    }
    proof {
        assert(ordered@.take(ordered@.len() as int) =~= ordered@);
    }
    kept
}

/// Whether `scaled` holds, for each survivor, a value that `scale` may return
/// for the method, the survivor's p-value, its rank and the number of
/// hypotheses.
pub open spec fn is_scaling<S: Fn(AdjustmentMethod, u64, u64, u64) -> u64>(
    scaled: Seq<u64>,
    kept: Seq<(int, CorResultView)>,
    method: AdjustmentMethod,
    total: u64,
    scale: S,
) -> bool {
    &&& scaled.len() == kept.len()
    &&& forall|k: int|
        0 <= k < kept.len() ==> call_ensures(
            scale,
            (method, kept[k].1.p_value, kept[k].0 as u64, total),
            #[trigger] scaled[k],
        )
}

/// Scales the p-value of each survivor, handing `scale` the survivor's own
/// rank and the number of all hypotheses.
pub fn scale_p_values<S: Fn(AdjustmentMethod, u64, u64, u64) -> u64>(
    kept: &Vec<(usize, CorResult)>,
    method: AdjustmentMethod,
    total: u64,
    scale: &S,
) -> (scaled: Vec<u64>)
    requires
        forall|m: AdjustmentMethod, p: u64, rank: u64, count: u64|
            call_requires(*scale, (m, p, rank, count)),
    ensures
        is_scaling(scaled@, ranked_views(kept@), method, total, *scale),
{
    let mut scaled: Vec<u64> = Vec::new();
    let mut k: usize = 0;
    while k < kept.len()
        invariant
            k <= kept.len(),
            scaled.len() == k,
            forall|m: AdjustmentMethod, p: u64, rank: u64, count: u64|
                call_requires(*scale, (m, p, rank, count)),
            forall|e: int|
                0 <= e < k ==> call_ensures(
                    *scale,
                    (method, kept[e].1.p_value, kept[e].0 as u64, total),
                    #[trigger] scaled[e],
                ),
        decreases kept.len() - k,
    {
        let value = scale(method, kept[k].1.p_value, kept[k].0 as u64, total);
        scaled.push(value);
        k += 1;
    }
    scaled
}

/// The record with a corrected p-value attached.
pub open spec fn with_adjusted(record: CorResultView, corrected: u64) -> CorResultView {
    CorResultView {
        gene: record.gene,
        gem: record.gem,
        correlation: record.correlation,
        p_value: record.p_value,
        adjusted_p_value: Some(corrected),
    }
}

/// The survivors, each with its corrected p-value attached.
pub open spec fn assembled(kept: Seq<(int, CorResultView)>, corrected: Seq<u64>) -> Seq<
    CorResultView,
> {
    Seq::new(kept.len(), |k: int| with_adjusted(kept[k].1, corrected[k]))
}

/// Attaches to each survivor its corrected p-value.
pub fn attach_adjusted(kept: Vec<(usize, CorResult)>, corrected: &Vec<u64>) -> (results: Vec<
    CorResult,
>)
    requires
        kept.len() == corrected.len(),
    ensures
        views(results@) == assembled(ranked_views(kept@), corrected@),
{
    let mut results: Vec<CorResult> = Vec::new();
    let mut k: usize = 0;
    let count = kept.len();
    for entry in it: kept
        invariant
            it.seq() == kept@,
            count == kept@.len(),
            k == it.index(),
            kept.len() == corrected.len(),
            results.len() == k,
            forall|e: int|
                0 <= e < k ==> (#[trigger] results[e])@ == with_adjusted(kept[e].1@, corrected[e]),
    {
        let (_, record) = entry;
        let mut record = record;
        record.adjusted_p_value = Some(corrected[k]);
        results.push(record);
        k += 1;
    }
    proof {
        assert(views(results@) =~= assembled(ranked_views(kept@), corrected@));
    }
    results
}

/// The results for scores of all pairs and scaled p-values of the survivors:
/// the survivors of the ordered scores, each with its corrected p-value.
pub open spec fn finished(
    scored: Seq<CorResultView>,
    threshold: u64,
    method: AdjustmentMethod,
    scaled: Seq<u64>,
) -> Seq<CorResultView> {
    assembled(survivors(ordered_for(scored, method), threshold), adjusted(method, scaled))
}

/// The results of a rank-based correction never fall with the rank: of two
/// results the one with the lower rank, which stands first, has no larger
/// corrected p-value.
pub proof fn lemma_finished_is_monotone(
    scored: Seq<CorResultView>,
    threshold: u64,
    method: AdjustmentMethod,
    scaled: Seq<u64>,
    low: int,
    high: int,
)
    requires
        method.is_rank_based(),
        scaled.len() == survivors(ordered_for(scored, method), threshold).len(),
        0 <= low <= high < scaled.len(),
    ensures
        finished(scored, threshold, method, scaled)[low].adjusted_p_value.unwrap() <= finished(
            scored,
            threshold,
            method,
            scaled,
        )[high].adjusted_p_value.unwrap(),
        survivors(ordered_for(scored, method), threshold)[low].0 <= survivors(
            ordered_for(scored, method),
            threshold,
        )[high].0,
{
    lemma_rank_based_is_monotone(method, scaled, low, high);
    lemma_survivors_keep_their_place(ordered_for(scored, method), threshold, high);
}

/// Whether `results` is what the engine may give for the two matrices: there
/// are scores of all pairs and scaled p-values of the survivors such that
/// `results` is the survivors with their corrected p-values.
pub open spec fn is_outcome<
    C: Fn(&Vec<u64>, &Vec<u64>) -> (u64, u64),
    S: Fn(AdjustmentMethod, u64, u64, u64) -> u64,
>(
    results: Seq<CorResultView>,
    m1: Seq<(String, Vec<u64>)>,
    m3: Seq<(String, Vec<u64>)>,
    correlate: C,
    threshold: u64,
    method: AdjustmentMethod,
    scale: S,
) -> bool {
    exists|scored: Seq<CorResultView>, scaled: Seq<u64>|
        is_stages(results, m1, m3, correlate, threshold, method, scale, scored, scaled)
}

/// Whether `scored` and `scaled` are the stages that lead from the two
/// matrices to `results`.
pub open spec fn is_stages<
    C: Fn(&Vec<u64>, &Vec<u64>) -> (u64, u64),
    S: Fn(AdjustmentMethod, u64, u64, u64) -> u64,
>(
    results: Seq<CorResultView>,
    m1: Seq<(String, Vec<u64>)>,
    m3: Seq<(String, Vec<u64>)>,
    correlate: C,
    threshold: u64,
    method: AdjustmentMethod,
    scale: S,
    scored: Seq<CorResultView>,
    scaled: Seq<u64>,
) -> bool {
    &&& is_scoring(scored, m1, m3, correlate)
    &&& is_scaling(
        scaled,
        survivors(ordered_for(scored, method), threshold),
        method,
        scored.len() as u64,
        scale,
    )
    &&& results == finished(scored, threshold, method, scaled)
}

/// Whether every result reaches the threshold with its coefficient and
/// carries a corrected p-value that is a probability.
pub open spec fn all_kept_and_corrected(results: Seq<CorResultView>, threshold: u64) -> bool {
    forall|k: int|
        0 <= k < results.len() ==> {
            &&& magnitude_reaches((#[trigger] results[k]).correlation, threshold)
            &&& results[k].adjusted_p_value is Some
            &&& is_probability(results[k].adjusted_p_value.unwrap())
        }
}

} // verus!
