use ggca::correlation::{classify, count_pair_kinds, doubled_ranks, PairCounts, PairKind};
use ggca::double::{compare, equal_to, less_than, ordinal_of};
use ggca::experiment::CorResult;

fn bits(values: &[f64]) -> Vec<u64> {
    values.iter().map(|x| x.to_bits()).collect()
}

const VALUES: [f64; 14] = [
    0.0,
    -0.0,
    1.0,
    -1.0,
    0.5,
    -0.5,
    1e-310,
    -1e-310,
    f64::MAX,
    f64::MIN,
    f64::INFINITY,
    f64::NEG_INFINITY,
    f64::NAN,
    2.5,
];

#[test]
fn comparisons_agree_with_doubles() {
    for a in VALUES {
        for b in VALUES {
            assert_eq!(less_than(a.to_bits(), b.to_bits()), a < b, "{} < {}", a, b);
            assert_eq!(equal_to(a.to_bits(), b.to_bits()), a == b, "{} == {}", a, b);
            assert_eq!(compare(a.to_bits(), b.to_bits()), a.partial_cmp(&b), "{} ? {}", a, b);
        }
    }
}

#[test]
fn ordinals_grow_with_the_numbers() {
    assert_eq!(ordinal_of(0.0f64.to_bits()), 0);
    assert_eq!(ordinal_of((-0.0f64).to_bits()), 0);
    assert_eq!(ordinal_of(1.0f64.to_bits()), 0x3FF0_0000_0000_0000);
    assert_eq!(ordinal_of((-1.0f64).to_bits()), -0x3FF0_0000_0000_0000);
}

#[test]
fn scored_pairs_compare_by_p_value() {
    let low = CorResult {
        gene: "z".to_string(),
        gem: "z".to_string(),
        correlation: 0.9f64.to_bits(),
        p_value: 0.01f64.to_bits(),
        adjusted_p_value: None,
    };
    let high = CorResult {
        gene: "a".to_string(),
        gem: "a".to_string(),
        correlation: 0.1f64.to_bits(),
        p_value: 0.5f64.to_bits(),
        adjusted_p_value: Some(0.0f64.to_bits()),
    };
    assert!(low < high);
    assert!(high > low);
    assert!(!(high < low));
    assert_eq!(low.partial_cmp(&high), Some(std::cmp::Ordering::Less));
    let same = CorResult { gene: "other".to_string(), ..low.clone() };
    assert_eq!(low.partial_cmp(&same), Some(std::cmp::Ordering::Equal));
    let nan = CorResult { p_value: f64::NAN.to_bits(), ..low.clone() };
    assert_eq!(low.partial_cmp(&nan), None);
}

#[test]
fn ranks_are_doubled_mean_ranks() {
    assert_eq!(doubled_ranks(&bits(&[10.0, 30.0, 20.0])), vec![2, 6, 4]);
    assert_eq!(doubled_ranks(&bits(&[1.0, 2.0, 2.0, 3.0])), vec![2, 5, 5, 8]);
    assert_eq!(doubled_ranks(&bits(&[5.0, 5.0, 5.0])), vec![4, 4, 4]);
    assert_eq!(doubled_ranks(&bits(&[-1.0, -0.0, 0.0, -2.0])), vec![4, 7, 7, 2]);
    assert_eq!(doubled_ranks(&bits(&[])), Vec::<u128>::new());
}

#[test]
fn a_sample_that_is_no_number_has_no_rank() {
    assert_eq!(doubled_ranks(&bits(&[1.0, f64::NAN, 0.5])), vec![4, 1, 2]);
}

#[test]
fn pairs_are_classified() {
    let b = |x: f64| x.to_bits();
    assert_eq!(classify(b(1.0), b(1.0), b(2.0), b(3.0)), PairKind::Concordant);
    assert_eq!(classify(b(2.0), b(3.0), b(1.0), b(1.0)), PairKind::Concordant);
    assert_eq!(classify(b(1.0), b(3.0), b(2.0), b(1.0)), PairKind::Discordant);
    assert_eq!(classify(b(1.0), b(3.0), b(1.0), b(1.0)), PairKind::TiedFirst);
    assert_eq!(classify(b(1.0), b(3.0), b(2.0), b(3.0)), PairKind::TiedSecond);
    assert_eq!(classify(b(0.0), b(3.0), b(-0.0), b(3.0)), PairKind::TiedBoth);
    assert_eq!(classify(b(f64::NAN), b(3.0), b(2.0), b(3.0)), PairKind::Unordered);
}

#[test]
fn pair_kinds_are_counted_over_all_pairs() {
    let xs = bits(&[1.0, 2.0, 3.0, 4.0]);
    let ys = bits(&[1.0, 3.0, 2.0, 4.0]);
    let counts = count_pair_kinds(&xs, &ys);
    assert_eq!(
        counts,
        PairCounts {
            concordant: 5,
            discordant: 1,
            tied_first: 0,
            tied_second: 0,
            tied_both: 0,
            unordered: 0
        }
    );
    let xs = bits(&[1.0, 1.0, 2.0, 2.0, f64::NAN]);
    let ys = bits(&[1.0, 2.0, 2.0, 2.0, 0.0]);
    let counts = count_pair_kinds(&xs, &ys);
    assert_eq!(
        counts,
        PairCounts {
            concordant: 2,
            discordant: 0,
            tied_first: 1,
            tied_second: 2,
            tied_both: 1,
            unordered: 4
        }
    );
    assert_eq!(count_pair_kinds(&Vec::new(), &Vec::new()).concordant, 0);
}
