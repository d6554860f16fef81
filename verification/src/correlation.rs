//! The correlation methods, and the parts of them that are decided by the
//! order of the samples alone.
//!
//! Pearson's coefficient is arithmetic on doubles from end to end. Spearman's
//! is Pearson's on the ranks of the samples, and Kendall's is a ratio of
//! counts of sample pairs: the ranks and the counts are integers, and are
//! computed here.

use crate::double::{equal_to, is_equal, is_less, is_nan, is_nan_bits, less_than};
use vstd::prelude::*;

verus! {

/// The ways in which two rows can be correlated.
#[derive(Clone, Copy, Debug, PartialEq, Eq)]
pub enum CorrelationMethod {
    Pearson,
    Spearman,
    Kendall,
}

impl CorrelationMethod {
    /// The method that an integer selector stands for.
    pub open spec fn of_selector(selector: i32) -> CorrelationMethod {
        if selector == 1 {
            CorrelationMethod::Spearman
        } else if selector == 2 {
            CorrelationMethod::Kendall
        } else {
            CorrelationMethod::Pearson
        }
    }

    /// Decodes an integer selector: 1 is Spearman, 2 is Kendall, and every
    /// other number is Pearson.
    pub fn from_selector(selector: i32) -> (method: CorrelationMethod)
        ensures
            method == Self::of_selector(selector),
    {
        match selector {
            1 => CorrelationMethod::Spearman,
            2 => CorrelationMethod::Kendall,
            _ => CorrelationMethod::Pearson,
        }
    }
}

/// The number of samples before `upto` that are less than `value`.
pub open spec fn count_less(samples: Seq<u64>, value: u64, upto: int) -> nat
    decreases upto,
{
    if upto <= 0 {
        0
    } else {
        count_less(samples, value, upto - 1) + if is_less(samples[upto - 1], value) {
            1nat
        } else {
            0nat
        }
    }
}

/// The number of samples before `upto` that are equal to `value`.
pub open spec fn count_equal(samples: Seq<u64>, value: u64, upto: int) -> nat
    decreases upto,
{
    if upto <= 0 {
        0
    } else {
        count_equal(samples, value, upto - 1) + if is_equal(samples[upto - 1], value) {
            1nat
        } else {
            0nat
        }
    }
}

/// Twice the rank of sample `i` among all samples, where the smallest sample
/// has rank one and equal samples share the mean of their ranks. A sample that
/// is no number has no rank, and the value is one.
pub open spec fn doubled_rank(samples: Seq<u64>, i: int) -> nat {
    2 * count_less(samples, samples[i], samples.len() as int) + count_equal(
        samples,
        samples[i],
        samples.len() as int,
    ) + 1
}

/// The rank of every sample, doubled.
pub fn doubled_ranks(samples: &Vec<u64>) -> (ranks: Vec<u128>)
    ensures
        ranks@.len() == samples@.len(),
        forall|i: int| 0 <= i < samples@.len() ==> #[trigger] ranks@[i] == doubled_rank(samples@, i),
{
    let n = samples.len();
    let mut ranks: Vec<u128> = Vec::new();
    let mut i: usize = 0;
    while i < n
        invariant
            i <= n,
            n == samples@.len(),
            ranks@.len() == i,
            forall|e: int| 0 <= e < i ==> #[trigger] ranks@[e] == doubled_rank(samples@, e),
        decreases n - i,
    {
        let value = samples[i];
        let mut less: u128 = 0;
        let mut equal: u128 = 0;
        let mut j: usize = 0;
        while j < n
            invariant
                j <= n,
                n == samples@.len(),
                less == count_less(samples@, value, j as int),
                equal == count_equal(samples@, value, j as int),
                less + equal <= j,
            decreases n - j,
        {
            if less_than(samples[j], value) {
                less += 1;
            } else if equal_to(samples[j], value) {
                equal += 1;
            }
            j += 1;
        }
        ranks.push(2 * less + equal + 1);
        i += 1;
    }
    ranks
}

/// How the pair of points `(x1, y1)` and `(x2, y2)` stands.
#[derive(Clone, Copy, Debug, PartialEq, Eq)]
pub enum PairKind {
    /// Both coordinates differ, in the same direction.
    Concordant,
    /// Both coordinates differ, in opposite directions.
    Discordant,
    /// Only the first coordinates are equal.
    TiedFirst,
    /// Only the second coordinates are equal.
    TiedSecond,
    /// Both coordinates are equal.
    TiedBoth,
    /// Some coordinate is no number.
    Unordered,
}

/// The kind of the pair of two points.
pub open spec fn kind_of(x1: u64, y1: u64, x2: u64, y2: u64) -> PairKind {
    if is_nan(x1) || is_nan(y1) || is_nan(x2) || is_nan(y2) {
        PairKind::Unordered
    } else if is_equal(x1, x2) {
        if is_equal(y1, y2) {
            PairKind::TiedBoth
        } else {
            PairKind::TiedFirst
        }
    } else if is_equal(y1, y2) {
        PairKind::TiedSecond
    } else if is_less(x1, x2) == is_less(y1, y2) {
        PairKind::Concordant
    } else {
        PairKind::Discordant
    }
}

/// Tells the kind of the pair of two points.
pub fn classify(x1: u64, y1: u64, x2: u64, y2: u64) -> (kind: PairKind)
    ensures
        kind == kind_of(x1, y1, x2, y2),
{
    if is_nan_bits(x1) || is_nan_bits(y1) || is_nan_bits(x2) || is_nan_bits(y2) {
        PairKind::Unordered
    } else if equal_to(x1, x2) {
        if equal_to(y1, y2) {
            PairKind::TiedBoth
        } else {
            PairKind::TiedFirst
        }
    } else if equal_to(y1, y2) {
        PairKind::TiedSecond
    } else if less_than(x1, x2) == less_than(y1, y2) {
        PairKind::Concordant
    } else {
        PairKind::Discordant
    }
}

/// The number of points before `upto` whose pair with point `other` is of the
/// given kind.
pub open spec fn count_in_row(
    xs: Seq<u64>,
    ys: Seq<u64>,
    kind: PairKind,
    other: int,
    upto: int,
) -> nat
    decreases upto,
{
    if upto <= 0 {
        0
    } else {
        count_in_row(xs, ys, kind, other, upto - 1) + if kind_of(
            xs[upto - 1],
            ys[upto - 1],
            xs[other],
            ys[other],
        ) == kind {
            1nat
        } else {
            0nat
        }
    }
}

/// The number of pairs of two different points, both before `upto`, that are
/// of the given kind.
pub open spec fn count_pairs(xs: Seq<u64>, ys: Seq<u64>, kind: PairKind, upto: int) -> nat
    decreases upto,
{
    if upto <= 0 {
        0
    } else {
        count_pairs(xs, ys, kind, upto - 1) + count_in_row(xs, ys, kind, upto - 1, upto - 1)
    }
}

/// How many pairs of points there are of each kind.
#[derive(Clone, Copy, Debug, PartialEq, Eq)]
pub struct PairCounts {
    pub concordant: u128,
    pub discordant: u128,
    pub tied_first: u128,
    pub tied_second: u128,
    pub tied_both: u128,
    pub unordered: u128,
}

impl PairCounts {
    /// The count of one kind.
    pub open spec fn of(self, kind: PairKind) -> u128 {
        match kind {
            PairKind::Concordant => self.concordant,
            PairKind::Discordant => self.discordant,
            PairKind::TiedFirst => self.tied_first,
            PairKind::TiedSecond => self.tied_second,
            PairKind::TiedBoth => self.tied_both,
            PairKind::Unordered => self.unordered,
        }
    }

    /// The number of all pairs counted.
    pub open spec fn total(self) -> int {
        self.concordant + self.discordant + self.tied_first + self.tied_second + self.tied_both
            + self.unordered
    }

    /// Whether the counts are those of the pairs among the first `upto`
    /// points, and of the pairs of the next point with the first `inner`
    /// points.
    pub open spec fn counts_upto(self, xs: Seq<u64>, ys: Seq<u64>, upto: int, inner: int) -> bool {
        forall|kind: PairKind|
            #[trigger] self.of(kind) == count_pairs(xs, ys, kind, upto) + count_in_row(
                xs,
                ys,
                kind,
                upto,
                inner,
            )
    }

    fn with_one_more(self, kind: PairKind) -> (r: PairCounts)
        requires
            self.total() < u128::MAX,
        ensures
            r.total() == self.total() + 1,
            forall|other: PairKind|
                #[trigger] r.of(other) == self.of(other) + if other == kind {
                    1int
                } else {
                    0int
                },
    {
        let mut r = self;
        match kind {
            PairKind::Concordant => {
                r.concordant = r.concordant + 1;
            },
            PairKind::Discordant => {
                r.discordant = r.discordant + 1;
            },
            PairKind::TiedFirst => {
                r.tied_first = r.tied_first + 1;
            },
            PairKind::TiedSecond => {
                r.tied_second = r.tied_second + 1;
            },
            PairKind::TiedBoth => {
                r.tied_both = r.tied_both + 1;
            },
            PairKind::Unordered => {
                r.unordered = r.unordered + 1;
            },
        }
        r
    }
}

/// Counts, over all pairs of two different points, the pairs of each kind.
/// The points are given by their first and by their second coordinates.
pub fn count_pair_kinds(xs: &Vec<u64>, ys: &Vec<u64>) -> (counts: PairCounts)
    requires
        xs@.len() == ys@.len(),
    ensures
        forall|kind: PairKind|
            #[trigger] counts.of(kind) == count_pairs(xs@, ys@, kind, xs@.len() as int),
        2 * counts.total() == xs@.len() * (xs@.len() - 1),
{
    let n = xs.len();
    let mut counts = PairCounts {
        concordant: 0,
        discordant: 0,
        tied_first: 0,
        tied_second: 0,
        tied_both: 0,
        unordered: 0,
    };
    let mut b: usize = 0;
    while b < n
        invariant
            b <= n,
            n == xs@.len(),
            n == ys@.len(),
            counts.counts_upto(xs@, ys@, b as int, 0),
            2 * counts.total() == b * (b - 1),
        decreases n - b,
    {
        let mut a: usize = 0;
        while a < b
            invariant
                a <= b < n,
                n == xs@.len(),
                n == ys@.len(),
                counts.counts_upto(xs@, ys@, b as int, a as int),
                2 * counts.total() == b * (b - 1) + 2 * a,
            decreases b - a,
        {
            proof {
                let next = b + 1;
                assert(b * (b - 1) + 2 * a < next * next) by (nonlinear_arith)
                    requires
                        0 <= a < b,
                        next == b + 1,
                ;
                assert(next * next <= 0xFFFF_FFFF_FFFF_FFFF * 0xFFFF_FFFF_FFFF_FFFF)
                    by (nonlinear_arith)
                    requires
                        0 <= next <= 0xFFFF_FFFF_FFFF_FFFF,
                ;
            }
            let kind = classify(xs[a], ys[a], xs[b], ys[b]);
            counts = counts.with_one_more(kind);
            a += 1;
        }
        proof {
            assert((b + 1) * b == b * (b - 1) + 2 * b) by (nonlinear_arith);
            assert forall|kind: PairKind|
                #[trigger] counts.of(kind) == count_pairs(xs@, ys@, kind, b + 1) + count_in_row(
                    xs@,
                    ys@,
                    kind,
                    b + 1,
                    0,
                ) by {
                assert(counts.of(kind) == count_pairs(xs@, ys@, kind, b as int) + count_in_row(
                    xs@,
                    ys@,
                    kind,
                    b as int,
                    b as int,
                ));
            }
        }
        b += 1;
    }
    proof {
        assert forall|kind: PairKind|
            #[trigger] counts.of(kind) == count_pairs(xs@, ys@, kind, xs@.len() as int) by {
            assert(counts.of(kind) == count_pairs(xs@, ys@, kind, n as int) + count_in_row(
                xs@,
                ys@,
                kind,
                n as int,
                0,
            ));
        }
    }
    counts
}

} // verus!
