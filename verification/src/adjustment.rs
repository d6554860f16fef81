//! Multiple-testing correction of ranked p-values.
//!
//! A correction has two parts. The first scales a p-value by the number of
//! hypotheses and, for the rank-based methods, by its rank: that is arithmetic
//! on doubles, which the caller supplies. The second part is decided here:
//! the scaled value is limited to one, and the rank-based methods then make
//! the corrected values monotone, each becoming the smallest of itself and of
//! the corrected values of all higher ranks.

use crate::double::{
    clamped_to_one, is_less, is_nan, is_probability, min_with_one, ONE_BITS,
};
use vstd::prelude::*;

verus! {

/// The supported corrections for multiple hypothesis testing.
#[derive(Clone, Copy, Debug, PartialEq, Eq)]
pub enum AdjustmentMethod {
    Bonferroni,
    BenjaminiHochberg,
    BenjaminiYekutieli,
}

impl AdjustmentMethod {
    /// The method that an integer selector stands for.
    pub open spec fn of_selector(selector: i32) -> AdjustmentMethod {
        if selector == 1 {
            AdjustmentMethod::BenjaminiHochberg
        } else if selector == 2 {
            AdjustmentMethod::BenjaminiYekutieli
        } else {
            AdjustmentMethod::Bonferroni
        }
    }

    /// Whether the correction depends on the rank of a p-value among all
    /// p-values, so that the p-values have to be sorted before they are
    /// ranked. Bonferroni's does not.
    pub open spec fn is_rank_based(self) -> bool {
        !(self is Bonferroni)
    }

    /// Decodes an integer selector: 1 is Benjamini-Hochberg, 2 is
    /// Benjamini-Yekutieli, and every other number is Bonferroni.
    pub fn from_selector(selector: i32) -> (method: AdjustmentMethod)
        ensures
            method == Self::of_selector(selector),
    {
        match selector {
            1 => AdjustmentMethod::BenjaminiHochberg,
            2 => AdjustmentMethod::BenjaminiYekutieli,
            _ => AdjustmentMethod::Bonferroni,
        }
    }

    /// Tells whether the p-values have to be sorted before they are ranked.
    pub fn needs_sorted_input(&self) -> (r: bool)
        ensures
            r == self.is_rank_based(),
    {
        match self {
            AdjustmentMethod::Bonferroni => false,
            _ => true,
        }
    }
}

/// The smallest of the scaled values from position `from` on, each limited to
/// one; one where there is none.
pub open spec fn running_minimum(scaled: Seq<u64>, from: int) -> u64
    decreases scaled.len() - from,
{
    if from < 0 || from >= scaled.len() {
        ONE_BITS
    } else {
        let here = clamped_to_one(scaled[from]);
        let later = running_minimum(scaled, from + 1);
        if here <= later {
            here
        } else {
            later
        }
    }
}

/// The corrected value at position `k` of scaled values that are given in
/// the order of their ranks.
pub open spec fn adjusted_at(method: AdjustmentMethod, scaled: Seq<u64>, k: int) -> u64 {
    if method.is_rank_based() {
        running_minimum(scaled, k)
    } else {
        clamped_to_one(scaled[k])
    }
}

/// The corrected values of scaled values that are given in the order of their
/// ranks.
pub open spec fn adjusted(method: AdjustmentMethod, scaled: Seq<u64>) -> Seq<u64> {
    Seq::new(scaled.len(), |k: int| adjusted_at(method, scaled, k))
}

/// The running minimum lies at or below every later value, limited to one,
/// and is a probability.
pub proof fn lemma_running_minimum_is_lower_bound(scaled: Seq<u64>, from: int, at: int)
    requires
        0 <= from <= at < scaled.len(),
    ensures
        running_minimum(scaled, from) <= clamped_to_one(scaled[at]),
        is_probability(running_minimum(scaled, from)),
    decreases at - from,
{
    lemma_running_minimum_is_probability(scaled, from);
    if from < at {
        lemma_running_minimum_is_lower_bound(scaled, from + 1, at);
    }
}

/// The running minimum is a probability.
pub proof fn lemma_running_minimum_is_probability(scaled: Seq<u64>, from: int)
    ensures
        is_probability(running_minimum(scaled, from)),
    decreases scaled.len() - from,
{
    if 0 <= from < scaled.len() {
        lemma_running_minimum_is_probability(scaled, from + 1);
    }
}

/// The running minimum is reached: it is one of the later values, limited to
/// one.
pub proof fn lemma_running_minimum_is_reached(scaled: Seq<u64>, from: int) -> (at: int)
    requires
        0 <= from < scaled.len(),
    ensures
        from <= at < scaled.len(),
        running_minimum(scaled, from) == clamped_to_one(scaled[at]),
    decreases scaled.len() - from,
{
    let here = clamped_to_one(scaled[from]);
    if from + 1 < scaled.len() && running_minimum(scaled, from + 1) < here {
        lemma_running_minimum_is_reached(scaled, from + 1)
    } else {
        if from + 1 < scaled.len() {
        } else {
            assert(running_minimum(scaled, from + 1) == ONE_BITS);
        }
        from
    }
}

/// Read from the highest rank down to the lowest, the values of a rank-based
/// correction never increase: a lower rank never has the larger value.
pub proof fn lemma_rank_based_is_monotone(
    method: AdjustmentMethod,
    scaled: Seq<u64>,
    low: int,
    high: int,
)
    requires
        method.is_rank_based(),
        0 <= low <= high < scaled.len(),
    ensures
        adjusted(method, scaled)[low] <= adjusted(method, scaled)[high],
    decreases high - low,
{
    if low < high {
        lemma_rank_based_is_monotone(method, scaled, low + 1, high);
    }
}

/// Every corrected value is a probability, and none exceeds its scaled value
/// limited to one.
pub proof fn lemma_adjusted_is_probability(method: AdjustmentMethod, scaled: Seq<u64>, k: int)
    requires
        0 <= k < scaled.len(),
    ensures
        is_probability(adjusted(method, scaled)[k]),
        adjusted(method, scaled)[k] <= clamped_to_one(scaled[k]),
{
    lemma_running_minimum_is_lower_bound(scaled, k, k);
}

/// Where scaling does not lower a p-value that is a probability, Bonferroni's
/// correction does not lower it either.
pub proof fn lemma_bonferroni_is_not_below_raw(p_value: u64, scaled: Seq<u64>, k: int)
    requires
        0 <= k < scaled.len(),
        is_probability(p_value),
        !is_less(scaled[k], p_value),
    ensures
        p_value <= adjusted(AdjustmentMethod::Bonferroni, scaled)[k],
{
}

/// Where the scaled value for more hypotheses is not less than the one for
/// fewer, Bonferroni's correction for more hypotheses is not less either.
pub proof fn lemma_bonferroni_keeps_order(fewer: Seq<u64>, more: Seq<u64>, k: int)
    requires
        0 <= k < fewer.len(),
        fewer.len() == more.len(),
        !is_nan(fewer[k]),
        !is_less(more[k], fewer[k]),
    ensures
        adjusted(AdjustmentMethod::Bonferroni, fewer)[k] <= adjusted(
            AdjustmentMethod::Bonferroni,
            more,
        )[k],
{
}

/// The running minimum of larger values is not smaller.
pub proof fn lemma_running_minimum_keeps_order(lower: Seq<u64>, higher: Seq<u64>, from: int)
    requires
        lower.len() == higher.len(),
        forall|j: int|
            0 <= j < lower.len() ==> clamped_to_one(#[trigger] lower[j]) <= clamped_to_one(
                higher[j],
            ),
    ensures
        running_minimum(lower, from) <= running_minimum(higher, from),
    decreases lower.len() - from,
{
    if 0 <= from < lower.len() {
        lemma_running_minimum_keeps_order(lower, higher, from + 1);
        assert(clamped_to_one(lower[from]) <= clamped_to_one(higher[from]));
    }
}

/// Whatever the method, scaled values of which none is smaller, once both are
/// limited to one, give corrected values of which none is smaller. So a
/// correction never falls where its scaling never falls: not with the number
/// of hypotheses, and not from Benjamini-Hochberg to Benjamini-Yekutieli.
pub proof fn lemma_adjusted_keeps_order(
    method: AdjustmentMethod,
    other: AdjustmentMethod,
    lower: Seq<u64>,
    higher: Seq<u64>,
    k: int,
)
    requires
        method.is_rank_based() == other.is_rank_based(),
        lower.len() == higher.len(),
        0 <= k < lower.len(),
        forall|j: int|
            0 <= j < lower.len() ==> clamped_to_one(#[trigger] lower[j]) <= clamped_to_one(
                higher[j],
            ),
    ensures
        adjusted(method, lower)[k] <= adjusted(other, higher)[k],
{
    lemma_running_minimum_keeps_order(lower, higher, k);
    assert(clamped_to_one(lower[k]) <= clamped_to_one(higher[k]));
}

/// Corrects scaled values that are given in the order of their ranks.
///
/// Bonferroni's correction limits each value to one. The rank-based
/// corrections limit each value to one and then replace it by the smallest
/// value from its position on.
pub fn adjust_all(method: AdjustmentMethod, scaled: &Vec<u64>) -> (r: Vec<u64>)
    ensures
        r@ == adjusted(method, scaled@),
{
    let n = scaled.len();
    let rank_based = method.needs_sorted_input();
    let mut falling: Vec<u64> = Vec::new();
    let mut smallest: u64 = ONE_BITS;
    let mut k: usize = n;
    while k > 0
        invariant
            k <= n,
            n == scaled.len(),
            rank_based == method.is_rank_based(),
            falling.len() == n - k,
            smallest == running_minimum(scaled@, k as int),
            forall|i: int|
                0 <= i < falling.len() ==> falling[i] == adjusted_at(method, scaled@, n - 1 - i),
        decreases k,
    {
        k -= 1;
        let here = min_with_one(scaled[k]);
        if here < smallest {
            smallest = here;
        }
        if rank_based {
            falling.push(smallest);
        } else {
            falling.push(here);
        }
    }
    let mut r: Vec<u64> = Vec::new();
    let mut i: usize = n;
    while i > 0
        invariant
            i <= n,
            falling.len() == n,
            r.len() == n - i,
            forall|j: int| 0 <= j < r.len() ==> r[j] == falling[n - 1 - j],
        decreases i,
    {
        i -= 1;
        r.push(falling[i]);
    }
    proof {
        assert(r@ =~= adjusted(method, scaled@));
    }
    r
}

} // verus!
