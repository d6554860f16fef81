//! The order of records: what it means to be sorted, and to be sorted with
//! ties in the order of arrival.

use crate::external_sort::Sortable;
use vstd::multiset::Multiset;
use vstd::prelude::*;
use vstd::seq_lib::*;

verus! {

/// The views of a sequence of records.
pub open spec fn views<T: View>(s: Seq<T>) -> Seq<T::V> {
    s.map_values(|x: T| x@)
}

/// Whether the keys never decrease along the sequence.
pub open spec fn is_sorted<T: Sortable>(s: Seq<T::V>) -> bool {
    forall|i: int, j: int| #![trigger s[i], s[j]] 0 <= i <= j < s.len() ==> T::key_of(s[i]) <= T::key_of(s[j])
}

/// Whether `out` holds the records of `input`, each as often as `input` does,
/// in the order of their keys.
pub open spec fn is_sorted_permutation<T: Sortable>(out: Seq<T::V>, input: Seq<T::V>) -> bool {
    &&& is_sorted::<T>(out)
    &&& out.to_multiset() == input.to_multiset()
}

pub(crate) proof fn lemma_views_push<T: View>(s: Seq<T>, x: T)
    ensures
        views(s.push(x)) == views(s).push(x@),
        views(s.push(x)).to_multiset() == views(s).to_multiset().insert(x@),
{
    broadcast use group_to_multiset_ensures;

    assert(views(s.push(x)) =~= views(s).push(x@));
}

pub(crate) proof fn lemma_views_drop_last<T: View>(s: Seq<T>)
    requires
        s.len() > 0,
    ensures
        views(s.drop_last()) == views(s).drop_last(),
        views(s) == views(s.drop_last()).push(s.last()@),
        views(s).to_multiset() == views(s.drop_last()).to_multiset().insert(s.last()@),
{
    broadcast use group_to_multiset_ensures;

    assert(views(s.drop_last()) =~= views(s).drop_last());
    assert(views(s) =~= views(s.drop_last()).push(s.last()@));
}

pub(crate) proof fn lemma_views_concat<T: View>(a: Seq<T>, b: Seq<T>)
    ensures
        views(a + b) == views(a) + views(b),
        views(a + b).to_multiset() == views(a).to_multiset().add(views(b).to_multiset()),
{
    assert(views(a + b) =~= views(a) + views(b));
    lemma_multiset_commutative(views(a), views(b));
}

pub(crate) proof fn lemma_views_empty<T: View>(s: Seq<T>)
    requires
        s.len() == 0,
    ensures
        views(s).to_multiset() == Multiset::<T::V>::empty(),
        forall|m: Multiset<T::V>| #[trigger] m.add(views(s).to_multiset()) == m,
        forall|m: Multiset<T::V>| #[trigger] views(s).to_multiset().add(m) == m,
{
    broadcast use vstd::multiset::group_multiset_axioms;

    to_multiset_len(views(s));
    vstd::multiset::lemma_multiset_empty_len(views(s).to_multiset());
    assert(views(s).to_multiset() =~= Multiset::<T::V>::empty());
    assert forall|m: Multiset<T::V>| #[trigger] m.add(views(s).to_multiset()) == m by {
        assert(m.add(views(s).to_multiset()) =~= m);
    }
    assert forall|m: Multiset<T::V>| #[trigger] views(s).to_multiset().add(m) == m by {
        assert(views(s).to_multiset().add(m) =~= m);
    }
}

/// Whether record `a`, which came from place `from_a`, stands before record
/// `b`, which came from place `from_b`: its key is smaller, or the keys are
/// the same and it came from the earlier place.
pub open spec fn comes_before<T: Sortable>(a: T::V, from_a: int, b: T::V, from_b: int) -> bool {
    T::key_of(a) < T::key_of(b) || (T::key_of(a) == T::key_of(b) && from_a < from_b)
}

/// Whether each record is the record of `input` at the place that `origin`
/// names for it.
pub open spec fn comes_from<T: Sortable>(
    records: Seq<T::V>,
    origin: Seq<int>,
    input: Seq<T::V>,
) -> bool {
    &&& origin.len() == records.len()
    &&& forall|i: int|
        0 <= i < records.len() ==> 0 <= #[trigger] origin[i] < input.len() && records[i]
            == input[origin[i]]
}

/// Whether the records stand in the order of their keys, and records with the
/// same key in the order of the places they came from.
pub open spec fn is_in_stable_order<T: Sortable>(records: Seq<T::V>, origin: Seq<int>) -> bool {
    forall|i: int, j: int|
        #![trigger origin[i], origin[j]]
        0 <= i < j < records.len() ==> comes_before::<T>(
            records[i],
            origin[i],
            records[j],
            origin[j],
        )
}

/// Whether `out` is `input` sorted by key with ties in the order of `input`,
/// where `origin` names for each place of `out` the place of `input` that its
/// record came from.
pub open spec fn is_stable_sort_by<T: Sortable>(
    out: Seq<T::V>,
    input: Seq<T::V>,
    origin: Seq<int>,
) -> bool {
    &&& out.len() == input.len()
    &&& comes_from::<T>(out, origin, input)
    &&& is_in_stable_order::<T>(out, origin)
}

/// Whether `out` is `input` sorted by key, records with the same key in the
/// order in which `input` has them.
pub open spec fn is_stable_sort<T: Sortable>(out: Seq<T::V>, input: Seq<T::V>) -> bool {
    exists|origin: Seq<int>| is_stable_sort_by::<T>(out, input, origin)
}

/// The stable sort of `input`: its records in the order of their keys, those
/// with the same key in the order in which `input` has them.
pub open spec fn stable_sorted<T: Sortable>(input: Seq<T::V>) -> Seq<T::V> {
    choose|out: Seq<T::V>| is_stable_sort::<T>(out, input)
}

/// The origins of a stable sort name every place of the input once.
proof fn lemma_origins_cover_the_input<T: Sortable>(
    out: Seq<T::V>,
    input: Seq<T::V>,
    origin: Seq<int>,
)
    requires
        is_stable_sort_by::<T>(out, input, origin),
    ensures
        origin.no_duplicates(),
        forall|place: int| 0 <= place < input.len() ==> origin.contains(place),
{
    broadcast use vstd::set::group_set_axioms;

    assert forall|i: int, j: int|
        0 <= i < origin.len() && 0 <= j < origin.len() && i != j implies origin[i]
        != origin[j] by {
        if i < j {
            assert(comes_before::<T>(out[i], origin[i], out[j], origin[j]));
        } else {
            assert(comes_before::<T>(out[j], origin[j], out[i], origin[i]));
        }
    }
    origin.unique_seq_to_set();
    let all = vstd::set_lib::set_int_range(0, input.len() as int);
    vstd::set_lib::lemma_int_range(0, input.len() as int);
    assert(origin.to_set().subset_of(all)) by {
        assert forall|place: int| origin.to_set().contains(place) implies all.contains(place) by {
            let i = choose|i: int| 0 <= i < origin.len() && origin[i] == place;
            assert(0 <= origin[i] < input.len());
        }
    }
    vstd::set_lib::lemma_set_subset_finite(all, origin.to_set());
    vstd::set_lib::lemma_subset_equality(origin.to_set(), all);
    assert forall|place: int| 0 <= place < input.len() implies origin.contains(place) by {
        assert(all.contains(place));
        assert(origin.to_set().contains(place));
    }
}

proof fn lemma_origins_agree<T: Sortable>(
    input: Seq<T::V>,
    one: Seq<T::V>,
    first: Seq<int>,
    other: Seq<T::V>,
    second: Seq<int>,
    upto: int,
)
    requires
        is_stable_sort_by::<T>(one, input, first),
        is_stable_sort_by::<T>(other, input, second),
        0 <= upto <= input.len(),
    ensures
        forall|k: int| 0 <= k < upto ==> first[k] == second[k],
    decreases upto,
{
    if upto > 0 {
        lemma_origins_agree::<T>(input, one, first, other, second, upto - 1);
        let i = upto - 1;
        let x = first[i];
        let y = second[i];
        if x != y {
            lemma_origins_cover_the_input::<T>(one, input, first);
            lemma_origins_cover_the_input::<T>(other, input, second);
            assert(0 <= x < input.len());
            assert(0 <= y < input.len());
            assert(second.contains(x));
            assert(first.contains(y));
            let j = choose|j: int| 0 <= j < second.len() && second[j] == x;
            let h = choose|h: int| 0 <= h < first.len() && first[h] == y;
            if j < i {
                assert(first[j] == second[j]);
            }
            if h < i {
                assert(first[h] == second[h]);
            }
            assert(comes_before::<T>(other[i], second[i], other[j], second[j]));
            assert(comes_before::<T>(one[i], first[i], one[h], first[h]));
            assert(other[i] == input[y]);
            assert(other[j] == input[x]);
            assert(one[i] == input[x]);
            assert(one[h] == input[y]);
        }
    }
}

/// A sequence has one stable sort only. So a sort gives the same result
/// whatever its budget is, and the result that sorting in memory gives.
pub proof fn lemma_stable_sort_is_unique<T: Sortable>(
    input: Seq<T::V>,
    one: Seq<T::V>,
    other: Seq<T::V>,
)
    requires
        is_stable_sort::<T>(one, input),
        is_stable_sort::<T>(other, input),
    ensures
        one == other,
        one == stable_sorted::<T>(input),
{
    lemma_a_stable_sort_is_the_stable_sort::<T>(input, one);
    lemma_a_stable_sort_is_the_stable_sort::<T>(input, other);
}

pub(crate) proof fn lemma_a_stable_sort_is_the_stable_sort<T: Sortable>(input: Seq<T::V>, one: Seq<T::V>)
    requires
        is_stable_sort::<T>(one, input),
    ensures
        one == stable_sorted::<T>(input),
{
    let other = stable_sorted::<T>(input);
    assert(is_stable_sort::<T>(other, input));
    let first = choose|origin: Seq<int>| is_stable_sort_by::<T>(one, input, origin);
    let second = choose|origin: Seq<int>| is_stable_sort_by::<T>(other, input, origin);
    lemma_origins_agree::<T>(input, one, first, other, second, input.len() as int);
    assert(one =~= other) by {
        assert forall|k: int| 0 <= k < one.len() implies one[k] == other[k] by {
            assert(first[k] == second[k]);
        }
    }
}

/// The place at which a record with key `key` goes into sorted records so
/// that it stands behind all records whose key is not larger.
spec fn place_behind_equals<T: Sortable>(records: Seq<T::V>, key: u64) -> int
    decreases records.len(),
{
    if records.len() == 0 || T::key_of(records.last()) <= key {
        records.len() as int
    } else {
        place_behind_equals::<T>(records.drop_last(), key)
    }
}

proof fn lemma_place_behind_equals<T: Sortable>(records: Seq<T::V>, key: u64)
    requires
        is_sorted::<T>(records),
    ensures
        0 <= place_behind_equals::<T>(records, key) <= records.len(),
        forall|i: int|
            0 <= i < place_behind_equals::<T>(records, key) ==> T::key_of(#[trigger] records[i])
                <= key,
        forall|i: int|
            place_behind_equals::<T>(records, key) <= i < records.len() ==> T::key_of(
                #[trigger] records[i],
            ) > key,
    decreases records.len(),
{
    if records.len() == 0 {
    } else if T::key_of(records.last()) <= key {
        assert forall|i: int| 0 <= i < records.len() implies T::key_of(#[trigger] records[i])
            <= key by {
            assert(T::key_of(records[i]) <= T::key_of(records[records.len() - 1]));
        }
    } else {
        let shorter = records.drop_last();
        assert(is_sorted::<T>(shorter)) by {
            assert forall|i: int, j: int|
                #![trigger shorter[i], shorter[j]]
                0 <= i <= j < shorter.len() implies T::key_of(shorter[i]) <= T::key_of(
                shorter[j],
            ) by {
                assert(T::key_of(records[i]) <= T::key_of(records[j]));
            }
        }
        lemma_place_behind_equals::<T>(shorter, key);
        let place = place_behind_equals::<T>(shorter, key);
        assert forall|i: int| 0 <= i < place implies T::key_of(#[trigger] records[i]) <= key by {
            assert(records[i] == shorter[i]);
        }
        assert forall|i: int| place <= i < records.len() implies T::key_of(
            #[trigger] records[i],
        ) > key by {
            if i < shorter.len() {
                assert(records[i] == shorter[i]);
            }
        }
    }
}

/// Every sequence has a stable sort, which `stable_sorted` therefore is.
pub proof fn lemma_stable_sorted_is_a_stable_sort<T: Sortable>(input: Seq<T::V>)
    ensures
        is_stable_sort::<T>(stable_sorted::<T>(input), input),
{
    let out = lemma_a_stable_sort_exists::<T>(input);
    assert(is_stable_sort::<T>(out, input));
}

proof fn lemma_a_stable_sort_exists<T: Sortable>(input: Seq<T::V>) -> (out: Seq<T::V>)
    ensures
        is_stable_sort::<T>(out, input),
    decreases input.len(),
{
    if input.len() == 0 {
        assert(is_stable_sort_by::<T>(input, input, Seq::<int>::empty()));
        input
    } else {
        let shorter = input.drop_last();
        let before = lemma_a_stable_sort_exists::<T>(shorter);
        let origin = choose|origin: Seq<int>| is_stable_sort_by::<T>(before, shorter, origin);
        lemma_stable_order_is_sorted::<T>(before, origin);
        let last = input.last();
        let from = input.len() - 1;
        let place = place_behind_equals::<T>(before, T::key_of(last));
        lemma_place_behind_equals::<T>(before, T::key_of(last));
        let out = before.insert(place, last);
        let origin_out = origin.insert(place, from);
        assert forall|i: int| 0 <= i < out.len() implies 0 <= #[trigger] origin_out[i]
            < input.len() && out[i] == input[origin_out[i]] by {
            if i < place {
                assert(origin_out[i] == origin[i]);
                assert(out[i] == before[i]);
                assert(shorter[origin[i]] == input[origin[i]]);
            } else if i > place {
                assert(origin_out[i] == origin[i - 1]);
                assert(out[i] == before[i - 1]);
                assert(shorter[origin[i - 1]] == input[origin[i - 1]]);
            }
        }
        assert forall|i: int, j: int|
            #![trigger origin_out[i], origin_out[j]]
            0 <= i < j < out.len() implies comes_before::<T>(
            out[i],
            origin_out[i],
            out[j],
            origin_out[j],
        ) by {
            let a = if i < place {
                i
            } else {
                i - 1
            };
            let b = if j < place {
                j
            } else {
                j - 1
            };
            if i == place {
                assert(out[j] == before[j - 1]);
                assert(T::key_of(before[j - 1]) > T::key_of(last));
            } else if j == place {
                assert(out[i] == before[i]);
                assert(T::key_of(before[i]) <= T::key_of(last));
                assert(origin_out[i] == origin[i]);
                assert(0 <= origin[i] < shorter.len());
            } else {
                assert(out[i] == before[a]);
                assert(out[j] == before[b]);
                assert(origin_out[i] == origin[a]);
                assert(origin_out[j] == origin[b]);
                assert(comes_before::<T>(before[a], origin[a], before[b], origin[b]));
            }
        }
        assert(is_stable_sort_by::<T>(out, input, origin_out));
        out
    }
}

/// Records in stable order are sorted.
pub proof fn lemma_stable_order_is_sorted<T: Sortable>(records: Seq<T::V>, origin: Seq<int>)
    requires
        origin.len() == records.len(),
        is_in_stable_order::<T>(records, origin),
    ensures
        is_sorted::<T>(records),
{
    assert forall|i: int, j: int| #![trigger records[i], records[j]] 0 <= i <= j < records.len() implies T::key_of(
        records[i],
    ) <= T::key_of(records[j]) by {
        if i < j {
            assert(comes_before::<T>(records[i], origin[i], records[j], origin[j]));
        }
    }
}

} // verus!
