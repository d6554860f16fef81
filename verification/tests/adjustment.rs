use ggca::adjustment::{adjust_all, AdjustmentMethod};
use ggca::correlation::CorrelationMethod;

fn bits(values: &[f64]) -> Vec<u64> {
    values.iter().map(|x| x.to_bits()).collect()
}

fn numbers(values: &[u64]) -> Vec<f64> {
    values.iter().map(|b| f64::from_bits(*b)).collect()
}

#[test]
fn bonferroni_limits_each_value_to_one() {
    let scaled = bits(&[0.02, 1.0, 3.5, 0.0, f64::INFINITY]);
    let adjusted = adjust_all(AdjustmentMethod::Bonferroni, &scaled);
    assert_eq!(numbers(&adjusted), vec![0.02, 1.0, 1.0, 0.0, 1.0]);
}

#[test]
fn bonferroni_is_not_below_the_raw_value_and_grows_with_the_count() {
    let raw = [0.0, 1e-300, 0.001, 0.3, 0.75, 1.0];
    let mut before: Option<Vec<f64>> = None;
    for m in [1u64, 2, 10, 1000] {
        let scaled: Vec<u64> = raw.iter().map(|p| (p * m as f64).to_bits()).collect();
        let adjusted = numbers(&adjust_all(AdjustmentMethod::Bonferroni, &scaled));
        for (p, q) in raw.iter().zip(&adjusted) {
            assert!(q >= p);
            assert_eq!(*q, (p * m as f64).min(1.0));
        }
        if let Some(fewer) = before {
            for (low, high) in fewer.iter().zip(&adjusted) {
                assert!(low <= high);
            }
        }
        before = Some(adjusted);
    }
}

#[test]
fn rank_based_values_are_running_minima() {
    let scaled = bits(&[0.5, 0.2, 0.9, 0.4, 2.0]);
    for method in [AdjustmentMethod::BenjaminiHochberg, AdjustmentMethod::BenjaminiYekutieli] {
        let adjusted = adjust_all(method, &scaled);
        assert_eq!(numbers(&adjusted), vec![0.2, 0.2, 0.4, 0.4, 1.0]);
    }
}

#[test]
fn rank_based_values_never_fall_with_the_rank() {
    let scaled = bits(&[0.9, 0.1, 0.8, 0.3, 0.7, 0.5, 1.5, 0.6]);
    let adjusted = numbers(&adjust_all(AdjustmentMethod::BenjaminiHochberg, &scaled));
    for pair in adjusted.windows(2) {
        assert!(pair[0] <= pair[1]);
    }
}

#[test]
fn a_value_that_is_no_number_counts_as_one() {
    let scaled = bits(&[f64::NAN, 0.5]);
    assert_eq!(numbers(&adjust_all(AdjustmentMethod::Bonferroni, &scaled)), vec![1.0, 0.5]);
    assert_eq!(numbers(&adjust_all(AdjustmentMethod::BenjaminiHochberg, &scaled)), vec![0.5, 0.5]);
}

#[test]
fn a_value_below_zero_counts_as_zero() {
    let scaled = bits(&[-0.0, 0.5, -3.0]);
    assert_eq!(numbers(&adjust_all(AdjustmentMethod::Bonferroni, &scaled)), vec![0.0, 0.5, 0.0]);
    let adjusted = adjust_all(AdjustmentMethod::BenjaminiHochberg, &scaled);
    assert_eq!(adjusted, bits(&[0.0, 0.0, 0.0]));
}

#[test]
fn no_values_give_no_values() {
    assert!(adjust_all(AdjustmentMethod::BenjaminiYekutieli, &Vec::new()).is_empty());
}

#[test]
fn selectors_name_the_methods() {
    assert_eq!(AdjustmentMethod::from_selector(1), AdjustmentMethod::BenjaminiHochberg);
    assert_eq!(AdjustmentMethod::from_selector(2), AdjustmentMethod::BenjaminiYekutieli);
    assert_eq!(AdjustmentMethod::from_selector(0), AdjustmentMethod::Bonferroni);
    assert_eq!(AdjustmentMethod::from_selector(-7), AdjustmentMethod::Bonferroni);
    assert_eq!(CorrelationMethod::from_selector(1), CorrelationMethod::Spearman);
    assert_eq!(CorrelationMethod::from_selector(2), CorrelationMethod::Kendall);
    assert_eq!(CorrelationMethod::from_selector(0), CorrelationMethod::Pearson);
    assert_eq!(CorrelationMethod::from_selector(3), CorrelationMethod::Pearson);
}

#[test]
fn only_bonferroni_needs_no_sorting() {
    assert!(!AdjustmentMethod::Bonferroni.needs_sorted_input());
    assert!(AdjustmentMethod::BenjaminiHochberg.needs_sorted_input());
    assert!(AdjustmentMethod::BenjaminiYekutieli.needs_sorted_input());
}
