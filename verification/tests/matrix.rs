use ggca::experiment::{new_from_files, Computation, ExperimentFromFiles};
use ggca::matrix::{rows_from_records, samples_from_parsed, split_records, LoadError};

fn reader() -> ExperimentFromFiles {
    new_from_files(Vec::new(), Vec::new())
}

fn parse(field: &str) -> Option<u64> {
    field.parse::<f64>().ok().map(|x| x.to_bits())
}

fn bits(values: &[f64]) -> Vec<u64> {
    values.iter().map(|x| x.to_bits()).collect()
}

#[test]
fn records_are_split_at_tabs_and_line_ends() {
    let records = split_records(b"g1\t1\t2.5\ng2\t-3\t4e2\r\n").unwrap();
    assert_eq!(records, vec![vec!["g1", "1", "2.5"], vec!["g2", "-3", "4e2"]]);
}

#[test]
fn the_first_record_is_a_row_and_no_header() {
    let rows = reader().get_df(b"g1\t1\t2\t3\ng2\t2\t4\t6\n", &parse).unwrap();
    assert_eq!(
        rows,
        vec![
            ("g1".to_string(), bits(&[1.0, 2.0, 3.0])),
            ("g2".to_string(), bits(&[2.0, 4.0, 6.0]))
        ]
    );
}

#[test]
fn rows_may_differ_in_length() {
    let rows = reader().get_df(b"g1\t1\t2\t3\ng2\t2\n", &parse).unwrap();
    assert_eq!(rows[0].1.len(), 3);
    assert_eq!(rows[1].1.len(), 1);
}

#[test]
fn an_invalid_sample_is_reported_with_row_and_column() {
    let r = reader().get_df(b"g1\t1\t2\t3\ng2\t2\tx\ty\n", &parse);
    assert_eq!(r, Err(LoadError::InvalidValue { row: 3, column: 3 }));
    let r = reader().get_df(b"g1\tnone\n", &parse);
    assert_eq!(r, Err(LoadError::InvalidValue { row: 2, column: 2 }));
}

#[test]
fn text_that_is_no_utf8_is_malformed() {
    let r = reader().get_df(&[b'g', b'\t', 0xff, 0xfe, b'\n'], &parse);
    assert_eq!(r, Err(LoadError::Malformed));
    assert_eq!(split_records(&[0xc3, 0x28]), Err(LoadError::Malformed));
}

#[test]
fn a_record_without_fields_is_malformed() {
    let records = vec![vec!["g1".to_string(), "1".to_string()], Vec::new()];
    assert_eq!(rows_from_records(&records, &parse), Err(LoadError::Malformed));
}

#[test]
fn the_first_field_that_is_no_number_is_reported() {
    let parsed = vec![Some(1), None, Some(3), None];
    assert_eq!(
        samples_from_parsed(5, &parsed),
        Err(LoadError::InvalidValue { row: 7, column: 3 })
    );
    assert_eq!(samples_from_parsed(0, &vec![Some(4), Some(2)]), Ok(vec![4, 2]));
    assert_eq!(samples_from_parsed(0, &Vec::new()), Ok(Vec::new()));
}

#[test]
fn both_matrices_come_with_their_shape() {
    let (m1, len_m1, m3, len_m3, columns) = reader()
        .get_both_df_and_shape(b"g1\t1\t2\t3\ng2\t2\t4\t6\n", b"h1\t1\t2\t3\n", &parse)
        .unwrap();
    assert_eq!((len_m1, len_m3, columns), (2, 1, 3));
    assert_eq!(m1.len(), 2);
    assert_eq!(m3[0].0, "h1");
}

#[test]
fn a_first_matrix_without_rows_has_no_shape() {
    let r = reader().get_both_df_and_shape(b"", b"h1\t1\t2\t3\n", &parse);
    assert_eq!(r, Err(LoadError::Empty));
}

#[test]
fn a_failure_of_the_second_matrix_is_reported() {
    let r = reader().get_both_df_and_shape(b"g1\t1\n", b"h1\t1\nh2\tz\n", &parse);
    assert_eq!(r, Err(LoadError::InvalidValue { row: 3, column: 2 }));
}
