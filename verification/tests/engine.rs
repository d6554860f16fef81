use ggca::adjustment::AdjustmentMethod;
use ggca::engine::{
    attach_adjusted, check_shape, order_for_ranking, rank_and_filter, scale_p_values,
    score_pairs, EngineError,
};
use ggca::experiment::{
    new_from_files, Batch, Computation, CorResult, ExperimentError, ExperimentFromFiles,
};
use ggca::matrix::LoadError;

fn engine() -> ExperimentFromFiles {
    new_from_files(Vec::new(), Vec::new())
}

fn row(label: &str, samples: &[f64]) -> (String, Vec<u64>) {
    (label.to_string(), samples.iter().map(|x| x.to_bits()).collect())
}

fn numbers(bits: &Vec<u64>) -> Vec<f64> {
    bits.iter().map(|b| f64::from_bits(*b)).collect()
}

/// Pearson's coefficient with the two-sided p-value of its t statistic, for
/// rows of three samples, where the t distribution has one degree of freedom.
fn pearson_of_three(xs: &Vec<u64>, ys: &Vec<u64>) -> (u64, u64) {
    let (xs, ys) = (numbers(xs), numbers(ys));
    assert_eq!(xs.len(), 3);
    assert_eq!(ys.len(), 3);
    let mean_x = xs.iter().sum::<f64>() / 3.0;
    let mean_y = ys.iter().sum::<f64>() / 3.0;
    let mut sxy = 0.0;
    let mut sxx = 0.0;
    let mut syy = 0.0;
    for i in 0..3 {
        sxy += (xs[i] - mean_x) * (ys[i] - mean_y);
        sxx += (xs[i] - mean_x) * (xs[i] - mean_x);
        syy += (ys[i] - mean_y) * (ys[i] - mean_y);
    }
    if sxx == 0.0 || syy == 0.0 {
        return (0.0f64.to_bits(), 1.0f64.to_bits());
    }
    let r = (sxy / (sxx * syy).sqrt()).clamp(-1.0, 1.0);
    let t = r * (1.0 / (1.0 - r * r)).sqrt();
    let p = 1.0 - 2.0 * t.abs().atan() / std::f64::consts::PI;
    (r.to_bits(), p.max(0.0).to_bits())
}

fn harmonic(m: u64) -> f64 {
    (1..=m).map(|i| 1.0 / i as f64).sum()
}

fn scale(method: AdjustmentMethod, p_value: u64, rank: u64, total: u64) -> u64 {
    let p = f64::from_bits(p_value);
    let m = total as f64;
    let scaled = match method {
        AdjustmentMethod::Bonferroni => p * m,
        AdjustmentMethod::BenjaminiHochberg => p * m / (rank + 1) as f64,
        AdjustmentMethod::BenjaminiYekutieli => p * m * harmonic(total) / (rank + 1) as f64,
    };
    scaled.to_bits()
}

fn never_scored(_: &Vec<u64>, _: &Vec<u64>) -> (u64, u64) {
    panic!("a pair was scored")
}

fn run(
    m1: Batch,
    m3: Batch,
    columns: usize,
    threshold: f64,
    budget: u64,
    method: AdjustmentMethod,
) -> Result<Vec<CorResult>, EngineError> {
    let (len_m1, len_m3) = (m1.len() as u64, m3.len() as u64);
    engine().all_vs_all(
        m1,
        len_m1,
        m3,
        len_m3,
        columns,
        &pearson_of_three,
        threshold.to_bits(),
        budget,
        method,
        &scale,
    )
}

#[test]
fn two_rows_against_one_with_bonferroni() {
    let a = vec![row("g1", &[1.0, 2.0, 3.0]), row("g2", &[2.0, 4.0, 6.0])];
    let b = vec![row("h1", &[1.0, 2.0, 3.0])];
    let results = run(a, b, 3, 0.0, 10, AdjustmentMethod::Bonferroni).unwrap();
    assert_eq!(results.len(), 2);
    assert_eq!((results[0].gene.as_str(), results[0].gem.as_str()), ("g1", "h1"));
    assert_eq!((results[1].gene.as_str(), results[1].gem.as_str()), ("g2", "h1"));
    for result in &results {
        assert_eq!(f64::from_bits(result.correlation), 1.0);
        let raw = f64::from_bits(result.p_value);
        let adjusted = f64::from_bits(result.adjusted_p_value.unwrap());
        assert_eq!(adjusted, (raw * 2.0).min(1.0));
    }
}

#[test]
fn the_first_matrix_gives_the_first_label_where_the_second_is_larger() {
    let a = vec![row("g1", &[1.0, 2.0, 3.0])];
    let b = vec![row("h1", &[1.0, 2.0, 3.0]), row("h2", &[3.0, 2.0, 1.0])];
    let results = run(a, b, 3, 0.0, 10, AdjustmentMethod::Bonferroni).unwrap();
    let labels: Vec<(&str, &str)> =
        results.iter().map(|r| (r.gene.as_str(), r.gem.as_str())).collect();
    assert_eq!(labels, vec![("g1", "h1"), ("g1", "h2")]);
    assert_eq!(f64::from_bits(results[0].correlation), 1.0);
    assert_eq!(f64::from_bits(results[1].correlation), -1.0);
}

#[test]
fn the_first_samples_are_those_of_the_first_matrix() {
    let a = vec![row("g1", &[1.0, 2.0, 3.0])];
    let b = vec![row("h1", &[4.0, 5.0, 6.0]), row("h2", &[7.0, 8.0, 9.0])];
    let first_of_each = |x: &Vec<u64>, y: &Vec<u64>| (x[0], y[0]);
    let scored = score_pairs(&a, &b, &first_of_each);
    let seen: Vec<(f64, f64)> = scored
        .iter()
        .map(|r| (f64::from_bits(r.correlation), f64::from_bits(r.p_value)))
        .collect();
    assert_eq!(seen, vec![(1.0, 4.0), (1.0, 7.0)]);
}

#[test]
fn matrices_of_equal_size_walk_the_second_outside() {
    let a = vec![row("g1", &[1.0, 2.0, 3.0]), row("g2", &[1.0, 3.0, 2.0])];
    let b = vec![row("h1", &[1.0, 2.0, 3.0]), row("h2", &[3.0, 1.0, 2.0])];
    let results = run(a, b, 3, 0.0, 10, AdjustmentMethod::Bonferroni).unwrap();
    let labels: Vec<(&str, &str)> =
        results.iter().map(|r| (r.gene.as_str(), r.gem.as_str())).collect();
    assert_eq!(labels, vec![("g1", "h1"), ("g2", "h1"), ("g1", "h2"), ("g2", "h2")]);
}

#[test]
fn a_buffer_of_one_record_still_gives_every_pair_in_the_order_of_p_values() {
    let a = vec![row("g1", &[1.0, -2.0, 1.0]), row("g2", &[1.0, 2.0, 3.0])];
    let b = vec![row("h1", &[1.0, 2.0, 3.0])];
    let results = run(a, b, 3, 0.0, 1, AdjustmentMethod::BenjaminiHochberg).unwrap();
    assert_eq!(results.len(), 2);
    assert_eq!((results[0].gene.as_str(), results[0].gem.as_str()), ("g2", "h1"));
    assert_eq!(f64::from_bits(results[0].correlation), 1.0);
    let p = f64::from_bits(results[0].p_value);
    assert!(p.abs() < 1e-6);
    assert_eq!(results[0].adjusted_p_value, Some((2.0 * p).to_bits()));
    assert_eq!((results[1].gene.as_str(), results[1].gem.as_str()), ("g1", "h1"));
    assert_eq!(f64::from_bits(results[1].correlation), 0.0);
    assert_eq!(f64::from_bits(results[1].p_value), 1.0);
    assert_eq!(results[1].adjusted_p_value, Some(1.0f64.to_bits()));
}

#[test]
fn every_buffer_size_gives_the_same_results() {
    for method in [AdjustmentMethod::BenjaminiHochberg, AdjustmentMethod::BenjaminiYekutieli] {
        let (a, b) = sample_matrices();
        let expected = run(a, b, 3, 0.0, 1000, method).unwrap();
        assert_eq!(expected.len(), 6);
        for budget in [0u64, 1, 2, 3, 5, 6, 7] {
            let (a, b) = sample_matrices();
            assert_eq!(run(a, b, 3, 0.0, budget, method).unwrap(), expected);
        }
    }
}

#[test]
fn mismatched_column_counts_fail_before_any_pair_is_scored() {
    let a = vec![row("g1", &[1.0, 2.0, 3.0])];
    let b = vec![row("h1", &[1.0, 2.0])];
    let r = engine().all_vs_all(
        a,
        1,
        b,
        1,
        3,
        &never_scored,
        0.0f64.to_bits(),
        10,
        AdjustmentMethod::Bonferroni,
        &scale,
    );
    assert_eq!(r, Err(EngineError::ShapeMismatch));
}

#[test]
fn a_row_of_the_first_matrix_with_too_many_samples_fails() {
    let a = vec![row("g1", &[1.0, 2.0, 3.0]), row("g2", &[1.0, 2.0, 3.0, 4.0])];
    let b = vec![row("h1", &[1.0, 2.0, 3.0])];
    let r = engine().all_vs_all(
        a,
        2,
        b,
        1,
        3,
        &never_scored,
        0.0f64.to_bits(),
        10,
        AdjustmentMethod::BenjaminiHochberg,
        &scale,
    );
    assert_eq!(r, Err(EngineError::ShapeMismatch));
}

#[test]
fn check_shape_accepts_an_empty_matrix() {
    let empty: Batch = Vec::new();
    assert!(check_shape(&empty, 3));
    assert!(!check_shape(&vec![row("g", &[1.0])], 3));
}

fn sample_matrices() -> (Batch, Batch) {
    let a = vec![
        row("g1", &[1.0, 2.0, 3.0]),
        row("g2", &[1.0, 3.0, 2.0]),
        row("g3", &[3.0, 1.0, 2.5]),
    ];
    let b = vec![row("h1", &[1.0, 2.0, 4.0]), row("h2", &[2.0, 1.0, 1.5])];
    (a, b)
}

#[test]
fn results_are_no_more_than_pairs_and_reach_the_threshold() {
    for method in [
        AdjustmentMethod::Bonferroni,
        AdjustmentMethod::BenjaminiHochberg,
        AdjustmentMethod::BenjaminiYekutieli,
    ] {
        let (a, b) = sample_matrices();
        let results = run(a, b, 3, 0.6, 2, method).unwrap();
        assert!(results.len() <= 6);
        assert!(!results.is_empty());
        for result in &results {
            assert!(f64::from_bits(result.correlation).abs() >= 0.6);
            let adjusted = f64::from_bits(result.adjusted_p_value.unwrap());
            assert!((0.0..=1.0).contains(&adjusted));
        }
    }
}

#[test]
fn rank_based_results_come_in_the_order_of_their_p_values() {
    let (a, b) = sample_matrices();
    let results = run(a, b, 3, 0.0, 1, AdjustmentMethod::BenjaminiHochberg).unwrap();
    assert_eq!(results.len(), 6);
    for pair in results.windows(2) {
        assert!(f64::from_bits(pair[0].p_value) <= f64::from_bits(pair[1].p_value));
        let low = f64::from_bits(pair[0].adjusted_p_value.unwrap());
        let high = f64::from_bits(pair[1].adjusted_p_value.unwrap());
        assert!(low <= high);
    }
}

#[test]
fn benjamini_hochberg_takes_the_smallest_value_of_the_higher_ranks() {
    let (a, b) = sample_matrices();
    let results = run(a, b, 3, 0.0, 4, AdjustmentMethod::BenjaminiHochberg).unwrap();
    let raw: Vec<f64> = results
        .iter()
        .enumerate()
        .map(|(rank, r)| (f64::from_bits(r.p_value) * 6.0 / (rank + 1) as f64).min(1.0))
        .collect();
    for (rank, result) in results.iter().enumerate() {
        let expected = raw[rank..].iter().cloned().fold(1.0, f64::min);
        assert_eq!(f64::from_bits(result.adjusted_p_value.unwrap()), expected);
    }
}

#[test]
fn benjamini_yekutieli_scales_by_the_harmonic_sum() {
    let (a, b) = sample_matrices();
    let results = run(a, b, 3, 0.0, 4, AdjustmentMethod::BenjaminiYekutieli).unwrap();
    let c = harmonic(6);
    let raw: Vec<f64> = results
        .iter()
        .enumerate()
        .map(|(rank, r)| (f64::from_bits(r.p_value) * 6.0 * c / (rank + 1) as f64).min(1.0))
        .collect();
    for (rank, result) in results.iter().enumerate() {
        let expected = raw[rank..].iter().cloned().fold(1.0, f64::min);
        assert_eq!(f64::from_bits(result.adjusted_p_value.unwrap()), expected);
    }
}

#[test]
fn filtering_keeps_the_ranks_of_the_survivors() {
    let (a, b) = sample_matrices();
    let scored = score_pairs(&a, &b, &pearson_of_three);
    let ordered = order_for_ranking(scored, 2, AdjustmentMethod::BenjaminiHochberg);
    let all = rank_and_filter(ordered.clone(), 0.0f64.to_bits());
    let some = rank_and_filter(ordered, 0.9f64.to_bits());
    assert_eq!(all.len(), 6);
    assert!(some.len() < all.len());
    assert!(!some.is_empty());
    for (position, entry) in all.iter().enumerate() {
        assert_eq!(entry.0, position);
    }
    for entry in &some {
        assert_eq!(all[entry.0], *entry);
    }
}

#[test]
fn the_true_rank_is_handed_to_the_scaling() {
    let kept = vec![
        (
            1usize,
            CorResult {
                gene: "a".to_string(),
                gem: "b".to_string(),
                correlation: 0.9f64.to_bits(),
                p_value: 0.01f64.to_bits(),
                adjusted_p_value: None,
            },
        ),
        (
            4usize,
            CorResult {
                gene: "c".to_string(),
                gem: "d".to_string(),
                correlation: (-0.8f64).to_bits(),
                p_value: 0.02f64.to_bits(),
                adjusted_p_value: None,
            },
        ),
    ];
    let scaled = scale_p_values(&kept, AdjustmentMethod::BenjaminiHochberg, 10, &scale);
    assert_eq!(numbers(&scaled), vec![0.01 * 10.0 / 2.0, 0.02 * 10.0 / 5.0]);
    let results = attach_adjusted(kept, &vec![0.25f64.to_bits(), 0.5f64.to_bits()]);
    assert_eq!(results[0].adjusted_p_value, Some(0.25f64.to_bits()));
    assert_eq!(results[1].adjusted_p_value, Some(0.5f64.to_bits()));
    assert_eq!(results[1].gene, "c");
}

#[test]
fn bonferroni_leaves_the_pairs_in_the_order_of_scoring() {
    let (a, b) = sample_matrices();
    let scored = score_pairs(&a, &b, &pearson_of_three);
    let ordered = order_for_ranking(scored.clone(), 1, AdjustmentMethod::Bonferroni);
    assert_eq!(ordered, scored);
    let labels: Vec<(&str, &str)> =
        scored.iter().map(|r| (r.gene.as_str(), r.gem.as_str())).collect();
    assert_eq!(
        labels,
        vec![("g1", "h1"), ("g1", "h2"), ("g2", "h1"), ("g2", "h2"), ("g3", "h1"), ("g3", "h2")]
    );
}

#[test]
fn empty_matrices_give_no_result() {
    let results = run(Vec::new(), Vec::new(), 3, 0.0, 1, AdjustmentMethod::BenjaminiHochberg);
    assert_eq!(results, Ok(Vec::new()));
}

fn parse(field: &str) -> Option<u64> {
    field.parse::<f64>().ok().map(|x| x.to_bits())
}

fn compute(
    first: &str,
    second: &str,
    threshold: f64,
    method: AdjustmentMethod,
) -> Result<Vec<CorResult>, ExperimentError> {
    new_from_files(first.as_bytes().to_vec(), second.as_bytes().to_vec()).compute(
        &parse,
        &pearson_of_three,
        threshold.to_bits(),
        2,
        method,
        &scale,
    )
}

#[test]
fn an_experiment_reads_both_files_and_correlates_them() {
    let results = compute(
        "g1\t1\t2\t3\ng2\t2\t4\t6\n",
        "h1\t1\t2\t3\n",
        0.0,
        AdjustmentMethod::Bonferroni,
    )
    .unwrap();
    let labels: Vec<(&str, &str)> =
        results.iter().map(|r| (r.gene.as_str(), r.gem.as_str())).collect();
    assert_eq!(labels, vec![("g1", "h1"), ("g2", "h1")]);
    for result in &results {
        assert_eq!(f64::from_bits(result.correlation), 1.0);
        let raw = f64::from_bits(result.p_value);
        assert_eq!(f64::from_bits(result.adjusted_p_value.unwrap()), (raw * 2.0).min(1.0));
    }
}

#[test]
fn an_experiment_on_files_of_different_widths_fails() {
    let r = new_from_files(b"g1\t1\t2\t3\n".to_vec(), b"h1\t1\t2\n".to_vec()).compute(
        &parse,
        &never_scored,
        0.0f64.to_bits(),
        2,
        AdjustmentMethod::BenjaminiHochberg,
        &scale,
    );
    assert_eq!(r, Err(ExperimentError::Engine(EngineError::ShapeMismatch)));
}

#[test]
fn an_experiment_reports_a_sample_that_is_no_number() {
    let r = compute("g1\t1\t2\t3\n", "h1\t1\tb\t3\n", 0.0, AdjustmentMethod::Bonferroni);
    assert_eq!(r, Err(ExperimentError::Load(LoadError::InvalidValue { row: 2, column: 3 })));
    let r = compute("", "h1\t1\t2\t3\n", 0.0, AdjustmentMethod::Bonferroni);
    assert_eq!(r, Err(ExperimentError::Load(LoadError::Empty)));
}

#[test]
fn pairs_with_the_same_p_value_keep_the_order_of_scoring() {
    let a = vec![
        row("g1", &[1.0, 2.0, 3.0]),
        row("g2", &[1.0, 3.0, 2.0]),
        row("g3", &[1.0, 2.0, 3.0]),
        row("g4", &[1.0, 3.0, 2.0]),
    ];
    let b = vec![row("h1", &[1.0, 2.0, 4.0]), row("h2", &[1.0, 2.0, 4.0])];
    for budget in [1u64, 3, 100] {
        let results = run(a.clone(), b.clone(), 3, 0.0, budget, AdjustmentMethod::BenjaminiHochberg)
            .unwrap();
        let labels: Vec<(&str, &str)> =
            results.iter().map(|r| (r.gene.as_str(), r.gem.as_str())).collect();
        assert_eq!(
            labels,
            vec![
                ("g1", "h1"),
                ("g1", "h2"),
                ("g3", "h1"),
                ("g3", "h2"),
                ("g2", "h1"),
                ("g2", "h2"),
                ("g4", "h1"),
                ("g4", "h2"),
            ]
        );
    }
}
