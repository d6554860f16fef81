use ggca::experiment::CorResult;
use ggca::external_sort::memory::sort_in_memory;
use ggca::external_sort::merge::merge_runs;
use ggca::external_sort::run::encode_run;
use ggca::external_sort::{ExternalSorter, SortError, Sortable};

fn scored(gene: &str, gem: &str, correlation: f64, p_value: f64) -> CorResult {
    CorResult {
        gene: gene.to_string(),
        gem: gem.to_string(),
        correlation: correlation.to_bits(),
        p_value: p_value.to_bits(),
        adjusted_p_value: None,
    }
}

fn p_values(records: &[CorResult]) -> Vec<f64> {
    records.iter().map(|r| f64::from_bits(r.p_value)).collect()
}

fn sample() -> Vec<CorResult> {
    let p = [0.9, 0.1, 0.5, 0.3, 0.5, 0.0, 1.0, 0.2, 0.5, 0.05, 0.7];
    p.iter().enumerate().map(|(i, p)| scored(&format!("g{}", i), "x", 0.1 * i as f64, *p)).collect()
}

#[test]
fn sorter_with_budget_one_spills_every_record() {
    let input = vec![
        scored("a", "x", 0.5, 0.9),
        scored("b", "x", 0.4, 0.1),
        scored("c", "x", 0.3, 0.5),
        scored("d", "x", 0.2, 0.3),
    ];
    let sorted = ExternalSorter::new(1).sort(input).unwrap();
    assert_eq!(p_values(&sorted), vec![0.1, 0.3, 0.5, 0.9]);
    assert_eq!(sorted[0].gene, "b");
    assert_eq!(sorted[3].gene, "a");
}

#[test]
fn every_budget_gives_the_in_memory_order() {
    let mut expected = p_values(&sample());
    expected.sort_by(|a, b| a.partial_cmp(b).unwrap());
    for budget in [0usize, 1, 2, 3, 4, 5, 10, 11, 12, 1000] {
        let sorted = ExternalSorter::new(budget).sort(sample()).unwrap();
        assert_eq!(p_values(&sorted), expected, "budget {}", budget);
        let mut genes: Vec<String> = sorted.iter().map(|r| r.gene.clone()).collect();
        genes.sort();
        let mut all: Vec<String> = sample().iter().map(|r| r.gene.clone()).collect();
        all.sort();
        assert_eq!(genes, all);
    }
}

#[test]
fn records_with_equal_keys_keep_their_order_in_memory() {
    let sorted = sort_in_memory(sample());
    let ties: Vec<&str> =
        sorted.iter().filter(|r| f64::from_bits(r.p_value) == 0.5).map(|r| r.gene.as_str()).collect();
    assert_eq!(ties, vec!["g2", "g4", "g8"]);
}

#[test]
fn nothing_sorts_to_nothing() {
    assert_eq!(ExternalSorter::new(1).sort(Vec::<CorResult>::new()), Ok(Vec::new()));
    assert_eq!(ExternalSorter::new(8).sort(Vec::<CorResult>::new()), Ok(Vec::new()));
}

#[test]
fn encoding_has_the_documented_layout() {
    let record = CorResult {
        gene: "g1".to_string(),
        gem: "hé".to_string(),
        correlation: 1.0f64.to_bits(),
        p_value: 0.25f64.to_bits(),
        adjusted_p_value: Some(0.5f64.to_bits()),
    };
    let mut bytes = vec![7u8];
    assert!(record.encode(&mut bytes));
    let mut expected = vec![7u8];
    expected.extend_from_slice(&2u64.to_le_bytes());
    expected.extend_from_slice(b"g1");
    expected.extend_from_slice(&3u64.to_le_bytes());
    expected.extend_from_slice("hé".as_bytes());
    expected.extend_from_slice(&1.0f64.to_le_bytes());
    expected.extend_from_slice(&0.25f64.to_le_bytes());
    expected.push(1);
    expected.extend_from_slice(&0.5f64.to_le_bytes());
    assert_eq!(bytes, expected);
    let (back, next) = CorResult::decode(&bytes, 1).unwrap();
    assert_eq!(back, record);
    assert_eq!(next, bytes.len());
}

#[test]
fn encoding_then_decoding_gives_the_record_back() {
    let records = vec![
        scored("", "", 0.0, 0.0),
        scored("gene with spaces", "ß∂", -0.75, 1e-300),
        CorResult { adjusted_p_value: Some(1.0f64.to_bits()), ..scored("a", "b", f64::NAN, 1.0) },
    ];
    let mut bytes = Vec::new();
    for record in &records {
        assert!(record.encode(&mut bytes));
    }
    let mut position = 0;
    for record in &records {
        let (back, next) = CorResult::decode(&bytes, position).unwrap();
        assert_eq!(&back, record);
        assert_eq!(back.sort_key(), record.sort_key());
        position = next;
    }
    assert_eq!(position, bytes.len());
}

#[test]
fn bytes_that_end_early_do_not_decode() {
    let mut bytes = Vec::new();
    assert!(scored("gene", "gem", 0.5, 0.5).encode(&mut bytes));
    assert!(CorResult::decode(&bytes[..bytes.len() - 1], 0).is_none());
    assert!(CorResult::decode(&[], 0).is_none());
    let last = bytes.len() - 1;
    bytes[last] = 2;
    assert!(CorResult::decode(&bytes, 0).is_none());
}

#[test]
fn a_length_beyond_the_bytes_does_not_decode() {
    let mut bytes = Vec::new();
    bytes.extend_from_slice(&u64::MAX.to_le_bytes());
    bytes.extend_from_slice(b"abc");
    assert!(CorResult::decode(&bytes, 0).is_none());
}

#[test]
fn merging_reads_chunks_and_the_resident_run() {
    let first = vec![scored("a", "x", 0.0, 0.1), scored("b", "x", 0.0, 0.6)];
    let second = vec![scored("c", "x", 0.0, 0.2), scored("d", "x", 0.0, 0.3)];
    let resident = vec![scored("e", "x", 0.0, 0.05), scored("f", "x", 0.0, 0.9)];
    let chunks = vec![encode_run(&first).unwrap(), Vec::new(), encode_run(&second).unwrap()];
    let merged = merge_runs(&chunks, resident).unwrap();
    assert_eq!(p_values(&merged), vec![0.05, 0.1, 0.2, 0.3, 0.6, 0.9]);
}

#[test]
fn merging_a_broken_chunk_fails() {
    let run = vec![scored("a", "x", 0.0, 0.1), scored("b", "x", 0.0, 0.6)];
    let mut chunk = encode_run(&run).unwrap();
    chunk.pop();
    let r = merge_runs::<CorResult>(&vec![chunk], Vec::new());
    assert_eq!(r, Err(SortError::Decode));
    let r = merge_runs::<CorResult>(&vec![vec![1, 2, 3]], vec![scored("c", "x", 0.0, 0.2)]);
    assert_eq!(r, Err(SortError::Decode));
}

#[test]
fn every_budget_gives_exactly_what_sorting_in_memory_gives() {
    let expected = sort_in_memory(sample());
    for budget in [0usize, 1, 2, 3, 4, 5, 10, 11, 12, 1000] {
        let sorted = ExternalSorter::new(budget).sort(sample()).unwrap();
        assert_eq!(sorted, expected, "budget {}", budget);
    }
    let ties: Vec<&str> = expected
        .iter()
        .filter(|r| f64::from_bits(r.p_value) == 0.5)
        .map(|r| r.gene.as_str())
        .collect();
    assert_eq!(ties, vec!["g2", "g4", "g8"]);
}

#[test]
fn of_equal_keys_the_earlier_run_comes_first() {
    let first = vec![scored("a", "x", 0.0, 0.5), scored("b", "x", 0.0, 0.5)];
    let second = vec![scored("c", "x", 0.0, 0.5)];
    let resident = vec![scored("d", "x", 0.0, 0.1), scored("e", "x", 0.0, 0.5)];
    let chunks = vec![encode_run(&first).unwrap(), encode_run(&second).unwrap()];
    let merged = merge_runs(&chunks, resident).unwrap();
    let genes: Vec<&str> = merged.iter().map(|r| r.gene.as_str()).collect();
    assert_eq!(genes, vec!["d", "a", "b", "c", "e"]);
}

#[test]
fn p_values_of_any_sign_sort_as_numbers() {
    let p = [0.5, -0.0, f64::NAN, 0.0, -1.5, 1.0, f64::INFINITY, 0.25];
    let input: Vec<CorResult> =
        p.iter().enumerate().map(|(i, p)| scored(&format!("g{}", i), "x", 0.0, *p)).collect();
    for budget in [1usize, 3, 100] {
        let sorted = ExternalSorter::new(budget).sort(input.clone()).unwrap();
        let genes: Vec<&str> = sorted.iter().map(|r| r.gene.as_str()).collect();
        assert_eq!(genes, vec!["g4", "g1", "g3", "g7", "g0", "g5", "g6", "g2"]);
    }
}
