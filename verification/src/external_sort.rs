//! Sorting with a bounded buffer: sorted runs are set aside as bytes whenever
//! the buffer is full, and a k-way merge reads them back record by record.

pub mod memory;
pub mod merge;
pub mod order;
pub mod run;

use crate::external_sort::memory::sort_run;
use crate::external_sort::merge::{
    all_sorted, decodes_to, is_drawn_from, is_in_merge_order, is_merge_of,
    lemma_total_bag_of_empty_runs, merge_runs, merged_before, total_bag,
};
use crate::external_sort::order::{
    comes_before, comes_from, is_in_stable_order, is_sorted, is_sorted_permutation,
    is_stable_sort, is_stable_sort_by, lemma_a_stable_sort_is_the_stable_sort,
    lemma_stable_order_is_sorted, lemma_views_empty, lemma_views_push, stable_sorted, views,
};
use crate::external_sort::run::{all_can_encode, encode_run, lemma_run_encoding_is_injective};
use vstd::prelude::*;
use vstd::seq_lib::*;

verus! {

/// A record that can be ordered and set aside as bytes.
///
/// The order of two records is the order of their keys. The encoding is a
/// function of the record's view, and among the encodings that fit in memory
/// none is the beginning of another, so that records written one after the
/// other can be told apart again.
pub trait Sortable: View + Sized {
    /// The integer by which records are ordered, smallest first.
    spec fn key_of(v: Self::V) -> u64;

    /// The bytes that stand for a record at rest.
    spec fn encoding_of(v: Self::V) -> Seq<u8>;

    /// An encoding that fits in memory begins with the encoding of no other
    /// record.
    proof fn lemma_encoding_is_prefix_free(a: Self::V, b: Self::V)
        requires
            Self::encoding_of(a).is_prefix_of(Self::encoding_of(b)),
            Self::encoding_of(b).len() <= usize::MAX,
        ensures
            a == b,
    ;

    /// Whether a record can be encoded.
    spec fn can_encode(v: Self::V) -> bool;

    /// Every encoding holds at least one byte.
    proof fn lemma_encoding_is_not_empty(v: Self::V)
        ensures
            Self::encoding_of(v).len() > 0,
    ;

    /// The record's key.
    fn sort_key(&self) -> (k: u64)
        ensures
            k == Self::key_of(self@),
    ;

    /// Appends the record's encoding to `out` where the record can be
    /// encoded, and else leaves `out` as it is and returns `false`.
    fn encode(&self, out: &mut Vec<u8>) -> (written: bool)
        ensures
            written == Self::can_encode(self@),
            written ==> final(out)@ == old(out)@ + Self::encoding_of(self@),
            !written ==> final(out)@ == old(out)@,
    ;

    /// Reads the record whose encoding begins at `start`, and returns it with
    /// the position behind it. Returns `None` exactly where no record's
    /// encoding begins there.
    fn decode(bytes: &[u8], start: usize) -> (r: Option<(Self, usize)>)
        requires
            start <= bytes@.len(),
        ensures
            match r {
                Some((record, next)) => {
                    &&& start <= next <= bytes@.len()
                    &&& bytes@.subrange(start as int, next as int) == Self::encoding_of(record@)
                },
                None => forall|v: Self::V|
                    !(#[trigger] Self::encoding_of(v)).is_prefix_of(bytes@.skip(start as int)),
            },
    ;
}

/// Why a sort failed.
#[derive(Clone, Copy, Debug, PartialEq, Eq)]
pub enum SortError {
    /// A record could not be encoded while a run was set aside.
    Encode,
    /// The bytes of a run do not hold a record where one is due.
    Decode,
}

/// A sorter that holds at most a given number of records in its buffer.
pub struct ExternalSorter {
    buffer_budget: usize,
}

impl ExternalSorter {
    /// The number of records at which the buffer is set aside.
    pub closed spec fn budget(&self) -> usize {
        self.buffer_budget
    }

    /// The number of records, counted from the first, that a sort of `count`
    /// records sets aside as bytes: those of every buffer that reaches the
    /// budget, and so all but the rest that does not fill a buffer. With a
    /// budget of zero or one every record is set aside alone.
    pub open spec fn set_aside(&self, count: nat) -> nat {
        if self.budget() <= 1 {
            count
        } else {
            (count - count % (self.budget() as nat)) as nat
        }
    }

    /// A sorter with the given budget.
    pub fn new(buffer_budget: usize) -> (sorter: Self)
        ensures
            sorter.budget() == buffer_budget,
    {
        ExternalSorter { buffer_budget }
    }

    /// Sorts the records by key.
    ///
    /// Records gather in a buffer. Whenever the buffer holds as many records as
    /// the budget, it is sorted and set aside as a chunk of bytes. Where no
    /// chunk was set aside, the sorted buffer is the result. Otherwise the rest
    /// of the buffer is sorted as the last run, and the result is the merge of
    /// all runs. The sort fails exactly where one of the records that it sets
    /// aside cannot be encoded, and so never where the records are fewer than
    /// the budget.
    pub fn sort<T: Sortable>(&self, items: Vec<T>) -> (r: Result<Vec<T>, SortError>)
        ensures
            match r {
                Ok(out) => {
                    &&& all_can_encode::<T>(
                        views(items@).take(self.set_aside(items@.len()) as int),
                    )
                    &&& views(out@) == stable_sorted::<T>(views(items@))
                    &&& is_stable_sort::<T>(views(out@), views(items@))
                    &&& is_sorted_permutation::<T>(views(out@), views(items@))
                },
                Err(e) => e == SortError::Encode && !all_can_encode::<T>(
                    views(items@).take(self.set_aside(items@.len()) as int),
                ),
            },
    {
        let ghost input = views(items@);
        let mut chunks: Vec<Vec<u8>> = Vec::new();
        let mut buffer: Vec<T> = Vec::new();
        let ghost mut runs: Seq<Seq<T::V>> = Seq::empty();
        let ghost mut origins: Seq<Seq<int>> = Seq::empty();
        let ghost mut edges: Seq<int> = seq![0int];
        proof {
            lemma_views_empty(buffer@);
            lemma_total_bag_of_empty_runs(runs);
            lemma_views_empty(items@.take(0));
            assert(views(buffer@) =~= input.subrange(0, 0));
        }
        for item in it: items
            invariant
                it.seq() == items@,
                input == views(items@),
                decodes_to::<T>(chunks@, runs),
                all_sorted::<T>(runs),
                buffer.len() <= it.index(),
                total_bag(runs).add(views(buffer@).to_multiset()) == views(
                    items@.take(it.index() as int),
                ).to_multiset(),
                is_spilled::<T>(runs, origins, edges, input),
                edges.last() + buffer@.len() == it.index(),
                views(buffer@) == input.subrange(edges.last(), it.index() as int),
                edges.last() == self.set_aside(it.index() as nat),
                all_can_encode::<T>(input.take(edges.last())),
        {
            let ghost buffer_before = buffer@;
            let ghost seen_before = items@.take(it.index() as int);
            buffer.push(item);
            proof {
                broadcast use vstd::multiset::group_multiset_axioms;

                lemma_views_push(buffer_before, item);
                lemma_views_push(seen_before, item);
                assert(items@.take(it.index() + 1) =~= seen_before.push(item));
                assert(total_bag(runs).add(views(buffer@).to_multiset()) =~= views(
                    items@.take(it.index() + 1),
                ).to_multiset());
                assert(input[it.index() as int] == item@);
                assert(views(buffer@) =~= input.subrange(edges.last(), it.index() + 1));
            }
            proof {
                let budget = self.budget() as int;
                let index = it.index() as int;
                lemma_set_aside_grows(budget, index, items@.len() as int);
                if budget > 1 {
                    assert(self.set_aside(index as nat) == index - index % budget);
                    assert(self.set_aside((index + 1) as nat) == index + 1 - (index + 1) % budget);
                    assert(buffer@.len() == index % budget + 1);
                }
            }
            if buffer.len() >= self.buffer_budget {
                let ghost part = views(buffer@);
                let (run, Ghost(origin)) = sort_run(buffer, Ghost(input), Ghost(edges.last()));
                proof {
                    lemma_stable_order_is_sorted::<T>(views(run@), origin);
                }
                match encode_run(&run) {
                    Ok(bytes) => {
                        chunks.push(bytes);
                        proof {
                            broadcast use vstd::multiset::group_multiset_axioms;
                            broadcast use group_to_multiset_ensures;

                            assert forall|i: int| 0 <= i < it.index() + 1 implies T::can_encode(
                                #[trigger] input.take(it.index() + 1)[i],
                            ) by {
                                if i < edges.last() {
                                    assert(input.take(edges.last())[i] == input[i]);
                                } else {
                                    assert(part[i - edges.last()] == input[i]);
                                    assert(part.contains(input[i]));
                                    assert(views(run@).to_multiset().count(input[i]) > 0);
                                    assert(views(run@).contains(input[i]));
                                    let k = choose|k: int|
                                        0 <= k < views(run@).len() && views(run@)[k] == input[i];
                                    assert(T::can_encode(views(run@)[k]));
                                }
                            }
                            let longer = runs.push(views(run@));
                            assert(longer.drop_last() =~= runs);
                            lemma_spilling_one_more::<T>(
                                runs,
                                origins,
                                edges,
                                input,
                                views(run@),
                                origin,
                            );
                            runs = longer;
                            origins = origins.push(origin);
                            edges = edges.push(it.index() + 1);
                        }
                    },
                    Err(_) => {
                        proof {
                            let k = choose|k: int|
                                0 <= k < views(run@).len() && !T::can_encode(
                                    #[trigger] views(run@)[k],
                                );
                            let total = self.set_aside(items@.len());
                            assert(0 <= origin[k] < it.index() + 1);
                            assert(input.take(total as int)[origin[k]] == views(run@)[k]);
                        }
                        return Err(SortError::Encode);
                    },
                }
                buffer = Vec::new();
                proof {
                    lemma_views_empty(buffer@);
                    assert(views(buffer@) =~= input.subrange(edges.last(), it.index() + 1));
                }
            }
        }
        proof {
            assert(items@.take(items@.len() as int) =~= items@);
        }
        if chunks.len() == 0 {
            proof {
                assert(runs.len() == 0);
                lemma_total_bag_of_empty_runs(runs);
                broadcast use vstd::multiset::group_multiset_axioms;

                assert(views(buffer@).to_multiset() =~= views(items@).to_multiset());
                assert(edges.len() == 1);
            }
            let (out, Ghost(origin)) = sort_run(buffer, Ghost(input), Ghost(0));
            proof {
                lemma_stable_order_is_sorted::<T>(views(out@), origin);
                to_multiset_len(views(out@));
                to_multiset_len(input);
                assert(is_stable_sort_by::<T>(views(out@), input, origin));
                lemma_a_stable_sort_is_the_stable_sort::<T>(input, views(out@));
            }
            return Ok(out);
        }
        let (resident, Ghost(last_origin)) = sort_run(buffer, Ghost(input), Ghost(edges.last()));
        proof {
            lemma_stable_order_is_sorted::<T>(views(resident@), last_origin);
        }
        match merge_runs(&chunks, resident) {
            Ok(out) => {
                proof {
                    let (merged, source) = choose|merged: Seq<Seq<T::V>>, source: Seq<(int, int)>|
                        is_merge_of::<T>(views(out@), chunks@, merged, views(resident@), source);
                    assert forall|c: int| 0 <= c < runs.len() implies merged[c] == runs[c] by {
                        assert(chunks[c].len() == chunks[c]@.len());
                        lemma_run_encoding_is_injective::<T>(merged[c], runs[c]);
                    }
                    assert(merged =~= runs);
                    to_multiset_len(views(out@));
                    to_multiset_len(input);
                    lemma_merged_spills_are_stable::<T>(
                        views(out@),
                        runs,
                        origins,
                        edges,
                        input,
                        views(resident@),
                        last_origin,
                        source,
                    );
                    lemma_a_stable_sort_is_the_stable_sort::<T>(input, views(out@));
                }
                Ok(out)
            },
            Err(e) => {
                // The chunks hold what was just encoded into them, so this
                // merge cannot fail.
                proof {
                    assert(decodes_to::<T>(chunks@, runs));
                }
                Err(e)
            },
        }
    }
}

/// Where the buffer reaches the budget after record `index`, the records up
/// to it are set aside, and else those that were set aside before it; and what
/// is set aside of a part is set aside of the whole.
proof fn lemma_set_aside_grows(budget: int, index: int, count: int)
    requires
        0 <= budget,
        0 <= index < count,
    ensures
        budget > 1 ==> (index + 1) % budget == if index % budget + 1 == budget {
            0
        } else {
            index % budget + 1
        },
        budget > 1 ==> 0 <= index % budget < budget,
        budget > 1 ==> index % budget <= index && (index + 1) % budget <= index + 1 && count
            % budget <= count,
        budget > 1 && (index + 1) % budget == 0 ==> index + 1 <= count - count % budget,
{
    if budget > 1 {
        vstd::arithmetic::div_mod::lemma_fundamental_div_mod(index, budget);
        vstd::arithmetic::div_mod::lemma_fundamental_div_mod(index + 1, budget);
        vstd::arithmetic::div_mod::lemma_fundamental_div_mod(count, budget);
        vstd::arithmetic::div_mod::lemma_mod_bound(index, budget);
        vstd::arithmetic::div_mod::lemma_mod_bound(index + 1, budget);
        vstd::arithmetic::div_mod::lemma_mod_bound(count, budget);
        vstd::arithmetic::div_mod::lemma_mod_decreases(index as nat, budget as nat);
        vstd::arithmetic::div_mod::lemma_mod_decreases((index + 1) as nat, budget as nat);
        vstd::arithmetic::div_mod::lemma_mod_decreases(count as nat, budget as nat);
        let q = index / budget;
        let r = index % budget;
        assert(q * budget == budget * q) by (nonlinear_arith);
        assert((q + 1) * budget == q * budget + budget) by (nonlinear_arith);
        if r + 1 == budget {
            vstd::arithmetic::div_mod::lemma_fundamental_div_mod_converse(
                index + 1,
                budget,
                q + 1,
                0,
            );
        } else {
            vstd::arithmetic::div_mod::lemma_fundamental_div_mod_converse(
                index + 1,
                budget,
                q,
                r + 1,
            );
        }
        if (index + 1) % budget == 0 {
            let a = (index + 1) / budget;
            let c = count / budget;
            assert(a <= c) by (nonlinear_arith)
                requires
                    budget > 0,
                    index + 1 == budget * a,
                    count == budget * c + count % budget,
                    0 <= count % budget < budget,
                    index + 1 <= count,
            ;
            assert(budget * a <= budget * c) by (nonlinear_arith)
                requires
                    a <= c,
                    budget > 0,
            ;
        }
    }
}

/// Whether the runs are consecutive parts of `input`, each in stable order:
/// run `c` holds the records from place `edges[c]` up to place
/// `edges[c + 1]`, and `origins[c]` names for each of its records the place
/// that it came from.
spec fn is_spilled<T: Sortable>(
    runs: Seq<Seq<T::V>>,
    origins: Seq<Seq<int>>,
    edges: Seq<int>,
    input: Seq<T::V>,
) -> bool {
    &&& origins.len() == runs.len()
    &&& edges.len() == runs.len() + 1
    &&& edges[0] == 0
    &&& forall|a: int, b: int| 0 <= a <= b < edges.len() ==> #[trigger] edges[a] <= #[trigger] edges[b]
    &&& forall|c: int|
        #![trigger runs[c]]
        0 <= c < runs.len() ==> {
            &&& comes_from::<T>(runs[c], origins[c], input)
            &&& is_in_stable_order::<T>(runs[c], origins[c])
            &&& forall|p: int|
                0 <= p < origins[c].len() ==> edges[c] <= #[trigger] origins[c][p] < edges[c + 1]
        }
}

proof fn lemma_spilling_one_more<T: Sortable>(
    runs: Seq<Seq<T::V>>,
    origins: Seq<Seq<int>>,
    edges: Seq<int>,
    input: Seq<T::V>,
    run: Seq<T::V>,
    origin: Seq<int>,
)
    requires
        is_spilled::<T>(runs, origins, edges, input),
        comes_from::<T>(run, origin, input),
        is_in_stable_order::<T>(run, origin),
        forall|p: int|
            0 <= p < origin.len() ==> edges.last() <= #[trigger] origin[p] < edges.last()
                + run.len(),
    ensures
        is_spilled::<T>(
            runs.push(run),
            origins.push(origin),
            edges.push(edges.last() + run.len()),
            input,
        ),
{
    let runs2 = runs.push(run);
    let origins2 = origins.push(origin);
    let edges2 = edges.push(edges.last() + run.len());
    assert forall|a: int, b: int| 0 <= a <= b < edges2.len() implies #[trigger] edges2[a]
        <= #[trigger] edges2[b] by {
        if b < edges.len() {
            assert(edges[a] <= edges[b]);
        } else if a < edges.len() {
            assert(edges[a] <= edges[edges.len() - 1]);
        }
    }
    assert forall|c: int| #![trigger runs2[c]] 0 <= c < runs2.len() implies {
        &&& comes_from::<T>(runs2[c], origins2[c], input)
        &&& is_in_stable_order::<T>(runs2[c], origins2[c])
        &&& forall|p: int|
            0 <= p < origins2[c].len() ==> edges2[c] <= #[trigger] origins2[c][p] < edges2[c + 1]
    } by {
        if c < runs.len() {
            assert(runs2[c] == runs[c]);
            assert(origins2[c] == origins[c]);
            assert(edges2[c] == edges[c]);
            assert(edges2[c + 1] == edges[c + 1]);
        }
    }
}

/// The merge of consecutive parts of `input`, each in stable order, is the
/// stable sort of `input`.
proof fn lemma_merged_spills_are_stable<T: Sortable>(
    out: Seq<T::V>,
    runs: Seq<Seq<T::V>>,
    origins: Seq<Seq<int>>,
    edges: Seq<int>,
    input: Seq<T::V>,
    resident: Seq<T::V>,
    last_origin: Seq<int>,
    source: Seq<(int, int)>,
)
    requires
        out.len() == input.len(),
        is_spilled::<T>(runs, origins, edges, input),
        all_sorted::<T>(runs),
        is_sorted::<T>(resident),
        comes_from::<T>(resident, last_origin, input),
        is_in_stable_order::<T>(resident, last_origin),
        forall|p: int|
            0 <= p < last_origin.len() ==> edges.last() <= #[trigger] last_origin[p] < input.len(),
        is_drawn_from::<T>(out, runs.push(resident), source),
        is_in_merge_order::<T>(out, source),
    ensures
        is_stable_sort::<T>(out, input),
{
    let all_runs = runs.push(resident);
    let all_origins = origins.push(last_origin);
    let origin = Seq::new(out.len(), |k: int| all_origins[source[k].0][source[k].1]);
    assert forall|k: int| 0 <= k < out.len() implies 0 <= #[trigger] origin[k] < input.len()
        && out[k] == input[origin[k]] by {
        let c = source[k].0;
        let p = source[k].1;
        assert(out[k] == all_runs[c][p]);
        if c < runs.len() {
            assert(all_runs[c] == runs[c]);
            assert(comes_from::<T>(runs[c], origins[c], input));
            assert(0 <= origins[c][p] < input.len());
        } else {
            assert(0 <= last_origin[p] < input.len());
        }
    }
    assert forall|i: int, j: int| #![trigger origin[i], origin[j]] 0 <= i < j < out.len() implies comes_before::<
        T,
    >(out[i], origin[i], out[j], origin[j]) by {
        assert(merged_before::<T>(out[i], source[i], out[j], source[j]));
        let ci = source[i].0;
        let pi = source[i].1;
        let cj = source[j].0;
        let pj = source[j].1;
        assert(out[i] == all_runs[ci][pi]);
        assert(out[j] == all_runs[cj][pj]);
        if T::key_of(out[i]) == T::key_of(out[j]) {
            if ci < cj {
                assert(all_runs[ci] == runs[ci]);
                assert(edges[ci] <= origins[ci][pi] < edges[ci + 1]);
                assert(edges[ci + 1] <= edges[cj]);
                if cj < runs.len() {
                    assert(all_runs[cj] == runs[cj]);
                    assert(edges[cj] <= origins[cj][pj] < edges[cj + 1]);
                } else {
                    assert(edges[cj] <= edges[edges.len() - 1]);
                    assert(edges.last() <= last_origin[pj]);
                }
            } else {
                if ci < runs.len() {
                    assert(all_runs[ci] == runs[ci]);
                    assert(comes_before::<T>(
                        runs[ci][pi],
                        origins[ci][pi],
                        runs[ci][pj],
                        origins[ci][pj],
                    ));
                } else {
                    assert(comes_before::<T>(
                        resident[pi],
                        last_origin[pi],
                        resident[pj],
                        last_origin[pj],
                    ));
                }
            }
        }
    }
    assert(is_stable_sort_by::<T>(out, input, origin));
}

} // verus!
