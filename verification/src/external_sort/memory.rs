//! Sorting in memory: a merge sort that keeps records with the same key in
//! the order in which they came.

use crate::external_sort::order::{
    comes_before, comes_from, is_in_stable_order, is_sorted_permutation, is_stable_sort,
    is_stable_sort_by, lemma_a_stable_sort_is_the_stable_sort, lemma_stable_order_is_sorted,
    lemma_views_concat, lemma_views_drop_last, lemma_views_empty, lemma_views_push,
    stable_sorted, views,
};
use crate::external_sort::Sortable;
use vstd::prelude::*;

verus! {

/// Reverses a vector.
pub(crate) fn reversed<T: View>(v: Vec<T>) -> (out: Vec<T>)
    ensures
        out@ == v@.reverse(),
        views(out@).to_multiset() == views(v@).to_multiset(),
{
    let mut rest = v;
    let mut out: Vec<T> = Vec::new();
    proof {
        lemma_views_empty(out@);
    }
    while rest.len() > 0
        invariant
            rest.len() <= v.len(),
            rest@ == v@.take(rest.len() as int),
            out.len() + rest.len() == v.len(),
            forall|i: int| 0 <= i < out.len() ==> out[i] == v[v.len() - 1 - i],
            views(out@).to_multiset().add(views(rest@).to_multiset()) == views(v@).to_multiset(),
        decreases rest.len(),
    {
        let ghost before = rest@;
        let ghost out_before = out@;
        match rest.pop() {
            Some(x) => {
                out.push(x);
                proof {
                    lemma_views_drop_last(before);
                    lemma_views_push(out_before, x);
                    assert(rest@ =~= v@.take(rest.len() as int));
                    assert(views(out@).to_multiset().add(views(rest@).to_multiset())
                        =~= views(out_before).to_multiset().add(views(before).to_multiset()));
                }
            },
            None => {},
        }
    }
    proof {
        lemma_views_empty(rest@);
        assert(out@ =~= v@.reverse());
    }
    out
}

/// Merges two runs that are in stable order into one. The records of `left`
/// came from places before `middle`, those of `right` from places from
/// `middle` on, so that of two records with the same key one of `left` stands
/// first.
fn merge_sorted<T: Sortable>(
    left: Vec<T>,
    right: Vec<T>,
    Ghost(input): Ghost<Seq<T::V>>,
    Ghost(left_from): Ghost<Seq<int>>,
    Ghost(right_from): Ghost<Seq<int>>,
    Ghost(low): Ghost<int>,
    Ghost(middle): Ghost<int>,
    Ghost(high): Ghost<int>,
) -> (r: (Vec<T>, Ghost<Seq<int>>))
    requires
        low <= middle <= high,
        comes_from::<T>(views(left@), left_from, input),
        comes_from::<T>(views(right@), right_from, input),
        is_in_stable_order::<T>(views(left@), left_from),
        is_in_stable_order::<T>(views(right@), right_from),
        forall|i: int| 0 <= i < left_from.len() ==> low <= #[trigger] left_from[i] < middle,
        forall|i: int| 0 <= i < right_from.len() ==> middle <= #[trigger] right_from[i] < high,
    ensures
        r.0@.len() == left@.len() + right@.len(),
        comes_from::<T>(views(r.0@), r.1@, input),
        is_in_stable_order::<T>(views(r.0@), r.1@),
        forall|i: int| 0 <= i < r.1@.len() ==> low <= #[trigger] r.1@[i] < high,
        views(r.0@).to_multiset() == views(left@).to_multiset().add(views(right@).to_multiset()),
{
    let ghost total = views(left@).to_multiset().add(views(right@).to_multiset());
    let ghost count = left@.len() + right@.len();
    let mut left = left;
    let mut right = right;
    let mut falling: Vec<T> = Vec::new();
    let ghost mut lf = left_from;
    let ghost mut rf = right_from;
    let ghost mut ff = Seq::<int>::empty();
    proof {
        lemma_views_empty(falling@);
    }
    while left.len() > 0 || right.len() > 0
        invariant
            low <= middle <= high,
            falling@.len() + left@.len() + right@.len() == count,
            comes_from::<T>(views(left@), lf, input),
            comes_from::<T>(views(right@), rf, input),
            comes_from::<T>(views(falling@), ff, input),
            is_in_stable_order::<T>(views(left@), lf),
            is_in_stable_order::<T>(views(right@), rf),
            forall|i: int| 0 <= i < lf.len() ==> low <= #[trigger] lf[i] < middle,
            forall|i: int| 0 <= i < rf.len() ==> middle <= #[trigger] rf[i] < high,
            forall|i: int| 0 <= i < ff.len() ==> low <= #[trigger] ff[i] < high,
            forall|i: int, j: int|
                #![trigger ff[i], ff[j]]
                0 <= i < j < ff.len() ==> comes_before::<T>(
                    views(falling@)[j],
                    ff[j],
                    views(falling@)[i],
                    ff[i],
                ),
            forall|i: int|
                0 <= i < lf.len() && ff.len() > 0 ==> comes_before::<T>(
                    views(left@)[i],
                    #[trigger] lf[i],
                    views(falling@).last(),
                    ff.last(),
                ),
            forall|i: int|
                0 <= i < rf.len() && ff.len() > 0 ==> comes_before::<T>(
                    views(right@)[i],
                    #[trigger] rf[i],
                    views(falling@).last(),
                    ff.last(),
                ),
            views(falling@).to_multiset().add(views(left@).to_multiset()).add(
                views(right@).to_multiset(),
            ) == total,
        decreases left.len() + right.len(),
    {
        let from_right = if left.len() == 0 {
            true
        } else if right.len() == 0 {
            false
        } else {
            right[right.len() - 1].sort_key() >= left[left.len() - 1].sort_key()
        };
        let ghost left_before = views(left@);
        let ghost right_before = views(right@);
        let ghost falling_before = views(falling@);
        let ghost lf_before = lf;
        let ghost rf_before = rf;
        let ghost ff_before = ff;
        proof {
            if left@.len() > 0 {
                lemma_views_drop_last(left@);
            }
            if right@.len() > 0 {
                lemma_views_drop_last(right@);
            }
        }
        let popped = if from_right {
            right.pop()
        } else {
            left.pop()
        };
        match popped {
            Some(x) => {
                proof {
                    lemma_views_push(falling@, x);
                }
                falling.push(x);
                proof {
                    let came = if from_right {
                        rf_before.last()
                    } else {
                        lf_before.last()
                    };
                    if from_right {
                        rf = rf_before.drop_last();
                        assert(right_before.last() == x@);
                    } else {
                        lf = lf_before.drop_last();
                        assert(left_before.last() == x@);
                    }
                    ff = ff_before.push(came);
                    assert(views(falling@).to_multiset().add(views(left@).to_multiset()).add(
                        views(right@).to_multiset(),
                    ) =~= falling_before.to_multiset().add(left_before.to_multiset()).add(
                        right_before.to_multiset(),
                    ));
                    assert forall|i: int, j: int|
                        #![trigger ff[i], ff[j]]
                        0 <= i < j < ff.len() implies comes_before::<T>(
                        views(falling@)[j],
                        ff[j],
                        views(falling@)[i],
                        ff[i],
                    ) by {
                        if j == ff.len() - 1 {
                            let last = ff_before.len() - 1;
                            if from_right {
                                assert(comes_before::<T>(
                                    right_before[rf_before.len() - 1],
                                    rf_before[rf_before.len() - 1],
                                    falling_before.last(),
                                    ff_before.last(),
                                ));
                            } else {
                                assert(comes_before::<T>(
                                    left_before[lf_before.len() - 1],
                                    lf_before[lf_before.len() - 1],
                                    falling_before.last(),
                                    ff_before.last(),
                                ));
                            }
                            if i < last {
                                assert(comes_before::<T>(
                                    falling_before[last],
                                    ff_before[last],
                                    falling_before[i],
                                    ff_before[i],
                                ));
                            }
                        } else {
                            assert(comes_before::<T>(
                                falling_before[j],
                                ff_before[j],
                                falling_before[i],
                                ff_before[i],
                            ));
                        }
                    }
                    assert forall|i: int| 0 <= i < lf.len() implies comes_before::<T>(
                        views(left@)[i],
                        #[trigger] lf[i],
                        views(falling@).last(),
                        ff.last(),
                    ) by {
                        let last = lf_before.len() - 1;
                        assert(views(left@)[i] == left_before[i]);
                        assert(lf[i] == lf_before[i]);
                        if i < last {
                            assert(comes_before::<T>(
                                left_before[i],
                                lf_before[i],
                                left_before[last],
                                lf_before[last],
                            ));
                        }
                        if from_right {
                            assert(low <= lf_before[i] < middle);
                            assert(middle <= rf_before[rf_before.len() - 1] < high);
                        }
                    }
                    assert forall|i: int| 0 <= i < rf.len() implies comes_before::<T>(
                        views(right@)[i],
                        #[trigger] rf[i],
                        views(falling@).last(),
                        ff.last(),
                    ) by {
                        let last = rf_before.len() - 1;
                        assert(views(right@)[i] == right_before[i]);
                        assert(rf[i] == rf_before[i]);
                        if i < last {
                            assert(comes_before::<T>(
                                right_before[i],
                                rf_before[i],
                                right_before[last],
                                rf_before[last],
                            ));
                        }
                    }
                    assert forall|i: int, j: int|
                        #![trigger lf[i], lf[j]]
                        0 <= i < j < lf.len() implies comes_before::<T>(
                        views(left@)[i],
                        lf[i],
                        views(left@)[j],
                        lf[j],
                    ) by {
                        assert(comes_before::<T>(
                            left_before[i],
                            lf_before[i],
                            left_before[j],
                            lf_before[j],
                        ));
                    }
                    assert forall|i: int, j: int|
                        #![trigger rf[i], rf[j]]
                        0 <= i < j < rf.len() implies comes_before::<T>(
                        views(right@)[i],
                        rf[i],
                        views(right@)[j],
                        rf[j],
                    ) by {
                        assert(comes_before::<T>(
                            right_before[i],
                            rf_before[i],
                            right_before[j],
                            rf_before[j],
                        ));
                    }
                    assert(comes_from::<T>(views(left@), lf, input)) by {
                        assert forall|i: int| 0 <= i < lf.len() implies 0 <= #[trigger] lf[i]
                            < input.len() && views(left@)[i] == input[lf[i]] by {
                            assert(lf[i] == lf_before[i]);
                        }
                    }
                    assert(comes_from::<T>(views(right@), rf, input)) by {
                        assert forall|i: int| 0 <= i < rf.len() implies 0 <= #[trigger] rf[i]
                            < input.len() && views(right@)[i] == input[rf[i]] by {
                            assert(rf[i] == rf_before[i]);
                        }
                    }
                    assert(comes_from::<T>(views(falling@), ff, input)) by {
                        assert forall|i: int| 0 <= i < ff.len() implies 0 <= #[trigger] ff[i]
                            < input.len() && views(falling@)[i] == input[ff[i]] by {
                            if i < ff_before.len() {
                                assert(ff[i] == ff_before[i]);
                                assert(views(falling@)[i] == falling_before[i]);
                            } else if from_right {
                                assert(rf_before[rf_before.len() - 1] == came);
                            } else {
                                assert(lf_before[lf_before.len() - 1] == came);
                            }
                        }
                    }
                    assert(low <= came < high) by {
                        if from_right {
                            assert(middle <= rf_before[rf_before.len() - 1] < high);
                        } else {
                            assert(low <= lf_before[lf_before.len() - 1] < middle);
                        }
                    }
                    assert forall|i: int| 0 <= i < ff.len() implies low <= #[trigger] ff[i]
                        < high by {
                        if i < ff_before.len() {
                            assert(ff[i] == ff_before[i]);
                        }
                    }
                }
            },
            None => {},
        }
    }
    let ghost falling_views = views(falling@);
    let out = reversed(falling);
    let ghost origin = ff.reverse();
    proof {
        lemma_views_empty(left@);
        lemma_views_empty(right@);
        let n = ff.len() as int;
        assert forall|i: int| 0 <= i < n implies views(out@)[i] == falling_views[n - 1 - i]
            && origin[i] == ff[n - 1 - i] by {}
        assert forall|i: int, j: int|
            #![trigger origin[i], origin[j]]
            0 <= i < j < n implies comes_before::<T>(
            views(out@)[i],
            origin[i],
            views(out@)[j],
            origin[j],
        ) by {
            assert(comes_before::<T>(
                falling_views[n - 1 - i],
                ff[n - 1 - i],
                falling_views[n - 1 - j],
                ff[n - 1 - j],
            ));
        }
        assert forall|i: int| 0 <= i < n implies 0 <= #[trigger] origin[i] < input.len()
            && views(out@)[i] == input[origin[i]] && low <= origin[i] < high by {
            assert(0 <= ff[n - 1 - i] < input.len());
            assert(low <= ff[n - 1 - i] < high);
        }
    }
    (out, Ghost(origin))
}

/// Sorts the records, which are those of `input` from place `start` on, and
/// tells where each came from.
pub(crate) fn sort_run<T: Sortable>(items: Vec<T>, Ghost(input): Ghost<Seq<T::V>>, Ghost(start): Ghost<int>) -> (r:
    (Vec<T>, Ghost<Seq<int>>))
    requires
        0 <= start,
        start + items@.len() <= input.len(),
        views(items@) == input.subrange(start, start + items@.len()),
    ensures
        r.0@.len() == items@.len(),
        views(r.0@).to_multiset() == views(items@).to_multiset(),
        comes_from::<T>(views(r.0@), r.1@, input),
        is_in_stable_order::<T>(views(r.0@), r.1@),
        forall|i: int| 0 <= i < r.1@.len() ==> start <= #[trigger] r.1@[i] < start + items@.len(),
    decreases items@.len(),
{
    if items.len() <= 1 {
        let ghost origin = if items@.len() == 1 {
            seq![start]
        } else {
            Seq::<int>::empty()
        };
        proof {
            if items@.len() == 1 {
                assert(views(items@)[0] == input[start]);
            }
        }
        return (items, Ghost(origin));
    }
    let ghost whole = items@;
    let mut left = items;
    let middle = left.len() / 2;
    let right = left.split_off(middle);
    proof {
        assert(whole =~= left@ + right@);
        lemma_views_concat(left@, right@);
        assert(views(left@) =~= views(whole).subrange(0, middle as int));
        assert(views(right@) =~= views(whole).subrange(middle as int, whole.len() as int));
        assert(views(left@) =~= input.subrange(start, start + middle));
        assert(views(right@) =~= input.subrange(start + middle, start + whole.len()));
    }
    let (left, Ghost(left_from)) = sort_run(left, Ghost(input), Ghost(start));
    let (right, Ghost(right_from)) = sort_run(right, Ghost(input), Ghost(start + middle));
    merge_sorted(
        left,
        right,
        Ghost(input),
        Ghost(left_from),
        Ghost(right_from),
        Ghost(start),
        Ghost(start + middle),
        Ghost(start + whole.len()),
    )
}

/// Sorts the records by key. Records with the same key keep the order in which
/// they came.
pub fn sort_in_memory<T: Sortable>(items: Vec<T>) -> (out: Vec<T>)
    ensures
        views(out@) == stable_sorted::<T>(views(items@)),
        is_stable_sort::<T>(views(out@), views(items@)),
        is_sorted_permutation::<T>(views(out@), views(items@)),
{
    let ghost input = views(items@);
    proof {
        assert(input =~= input.subrange(0, input.len() as int));
    }
    let (out, Ghost(origin)) = sort_run(items, Ghost(input), Ghost(0));
    proof {
        lemma_stable_order_is_sorted::<T>(views(out@), origin);
        assert(is_stable_sort_by::<T>(views(out@), input, origin));
        lemma_a_stable_sort_is_the_stable_sort::<T>(input, views(out@));
    }
    out
}

} // verus!
