//! Reading a labelled matrix from tab-delimited text.
//!
//! Each record of the text is one row: its first field is the row's label,
//! and every further field is one sample. The text has no header row. Turning
//! a field into a number is left to a function that the caller hands in, which
//! returns the bit pattern of the number or nothing where the field is none.

use vstd::prelude::*;

verus! {

/// The error of the csv crate. It is carried from the call into that crate
/// to the place where it is mapped to a failure of this library, and never
/// looked into.
#[verifier::external_type_specification]
#[verifier::external_body]
pub struct ExCsvError(csv::Error);

/// Why a matrix could not be read.
#[derive(Clone, Copy, Debug, PartialEq, Eq)]
pub enum LoadError {
    /// The text is not well-formed, or one of its records has no field and so
    /// no label.
    Malformed,
    /// A sample is not a number. Rows and columns are counted from one, and
    /// the counts allow for a header row and for the label column: the first
    /// sample of the first record is at row 2, column 2.
    InvalidValue { row: u128, column: u128 },
    /// The first matrix has no row, so the number of columns is not known.
    Empty,
}

/// The byte that parts the fields of a record: the tab.
pub const DELIMITER: u8 = 9;

/// The records, each a sequence of fields, that a reader of the csv crate
/// finds in delimited text, for the byte that parts the fields, for whether
/// the first record is a header row and no record of the data, and for
/// whether records may differ in their number of fields; `None` where the
/// reader reports an error.
pub uninterp spec fn csv_records(
    data: Seq<u8>,
    delimiter: u8,
    has_headers: bool,
    flexible: bool,
) -> Option<Seq<Seq<Seq<char>>>>;

/// The records of the text of a matrix: its fields are parted by tabs, its
/// first record is a row like the others, and its records may differ in
/// length.
pub open spec fn matrix_records(data: Seq<u8>) -> Option<Seq<Seq<Seq<char>>>> {
    csv_records(data, DELIMITER, false, true)
}

/// The texts of the fields of a record.
pub open spec fn fields_of(record: Vec<String>) -> Seq<Seq<char>> {
    record@.map_values(|field: String| field@)
}

/// The texts of records.
pub open spec fn texts(records: Seq<Vec<String>>) -> Seq<Seq<Seq<char>>> {
    records.map_values(|record: Vec<String>| fields_of(record))
}

/// Runs a reader of the csv crate over the bytes, built by
/// `csv::ReaderBuilder` with the given delimiter, header setting and
/// flexibility, and collects the records as strings up to the first error.
/// The result is a function of the bytes and of the three settings, which
/// `csv_records` names.
#[verifier::external_body]
fn read_records(data: &[u8], delimiter: u8, has_headers: bool, flexible: bool) -> (r: Result<
    Vec<Vec<String>>,
    csv::Error,
>)
    ensures
        match r {
            Ok(records) => csv_records(data@, delimiter, has_headers, flexible) == Some(
                texts(records@),
            ),
            Err(_) => csv_records(data@, delimiter, has_headers, flexible) is None,
        },
{
    let mut builder = csv::ReaderBuilder::new();
    builder.delimiter(delimiter).has_headers(has_headers).flexible(flexible);
    let mut reader = builder.from_reader(data);
    reader.records().map(
        |record| record.map(|fields| fields.iter().map(String::from).collect()),
    ).collect()
}

/// Splits the text of a matrix into its records.
pub fn split_records(data: &[u8]) -> (r: Result<Vec<Vec<String>>, LoadError>)
    ensures
        match r {
            Ok(records) => matrix_records(data@) == Some(texts(records@)),
            Err(e) => e == LoadError::Malformed && matrix_records(data@) is None,
        },
{
    match read_records(data, DELIMITER, false, true) {
        Ok(records) => Ok(records),
        Err(_) => Err(LoadError::Malformed),
    }
}

/// The place of the first field that is no number, if there is one.
pub open spec fn first_invalid(parsed: Seq<Option<u64>>) -> Option<int>
    decreases parsed.len(),
{
    if parsed.len() == 0 {
        None
    } else {
        match first_invalid(parsed.drop_last()) {
            Some(column) => Some(column),
            None => if parsed.last() is None {
                Some(parsed.len() - 1)
            } else {
                None
            },
        }
    }
}

/// The numbers of fields that all are numbers.
pub open spec fn numbers_of(parsed: Seq<Option<u64>>) -> Seq<u64> {
    parsed.map_values(|field: Option<u64>| field.unwrap())
}

/// What `first_invalid` finds is the first field that is no number.
pub proof fn lemma_first_invalid(parsed: Seq<Option<u64>>)
    ensures
        match first_invalid(parsed) {
            Some(column) => {
                &&& 0 <= column < parsed.len()
                &&& parsed[column] is None
                &&& forall|c: int| 0 <= c < column ==> (#[trigger] parsed[c]) is Some
            },
            None => forall|c: int| 0 <= c < parsed.len() ==> (#[trigger] parsed[c]) is Some,
        },
    decreases parsed.len(),
{
    if parsed.len() > 0 {
        lemma_first_invalid(parsed.drop_last());
        assert forall|c: int| 0 <= c < parsed.len() - 1 implies parsed[c] == parsed.drop_last()[c] by {}
    }
}

/// The samples of one row from its parsed fields, or the place of the first
/// field that is no number. `record` counts the records from zero.
pub fn samples_from_parsed(record: usize, parsed: &Vec<Option<u64>>) -> (r: Result<
    Vec<u64>,
    LoadError,
>)
    ensures
        match r {
            Ok(samples) => first_invalid(parsed@) is None && samples@ == numbers_of(parsed@),
            Err(e) => first_invalid(parsed@) matches Some(column) && e == (LoadError::InvalidValue {
                row: (record + 2) as u128,
                column: (column + 2) as u128,
            }),
        },
{
    let mut samples: Vec<u64> = Vec::new();
    let mut c: usize = 0;
    while c < parsed.len()
        invariant
            c <= parsed.len(),
            first_invalid(parsed@.take(c as int)) is None,
            samples@ == numbers_of(parsed@.take(c as int)),
        decreases parsed.len() - c,
    {
        proof {
            assert(parsed@.take(c + 1).drop_last() =~= parsed@.take(c as int));
            lemma_first_invalid(parsed@.take(c as int));
        }
        match parsed[c] {
            Some(value) => {
                samples.push(value);
                proof {
                    assert(samples@ =~= numbers_of(parsed@.take(c + 1)));
                }
            },
            None => {
                proof {
                    lemma_stays_first_invalid(parsed@, c as int);
                }
                return Err(
                    LoadError::InvalidValue { row: record as u128 + 2, column: c as u128 + 2 },
                );
            },
        }
        c += 1;
    }
    proof {
        assert(parsed@.take(parsed@.len() as int) =~= parsed@);
    }
    Ok(samples)
}

/// A field that is no number and has only numbers before it is the first
/// such field, whatever follows it.
proof fn lemma_stays_first_invalid(parsed: Seq<Option<u64>>, column: int)
    requires
        0 <= column < parsed.len(),
        parsed[column] is None,
        first_invalid(parsed.take(column)) is None,
    ensures
        first_invalid(parsed) == Some(column),
    decreases parsed.len(),
{
    if column == parsed.len() - 1 {
        assert(parsed.drop_last() =~= parsed.take(column));
    } else {
        assert(parsed.drop_last().take(column) =~= parsed.take(column));
        lemma_stays_first_invalid(parsed.drop_last(), column);
    }
}

/// Whether `parse` may give `out` for a field with the given text.
pub open spec fn may_parse_to<P: Fn(&str) -> Option<u64>>(
    parse: P,
    text: Seq<char>,
    out: Option<u64>,
) -> bool {
    exists|field: &str| field@ == text && call_ensures(parse, (field,), out)
}

/// Whether `parsed` holds, for each field of the record after its label, what
/// `parse` may give for it.
pub open spec fn is_parse_of<P: Fn(&str) -> Option<u64>>(
    parsed: Seq<Option<u64>>,
    record: Seq<Seq<char>>,
    parse: P,
) -> bool {
    &&& parsed.len() + 1 == record.len()
    &&& forall|c: int|
        0 <= c < parsed.len() ==> may_parse_to(parse, record[c + 1], #[trigger] parsed[c])
}

/// Whether the row is read from the record: the record's first field is its
/// label, and its samples are the numbers of all further fields.
pub open spec fn is_row_of<P: Fn(&str) -> Option<u64>>(
    row: (String, Vec<u64>),
    record: Seq<Seq<char>>,
    parse: P,
) -> bool {
    &&& record.len() > 0
    &&& row.0@ == record[0]
    &&& exists|parsed: Seq<Option<u64>>|
        #![trigger is_parse_of(parsed, record, parse)]
        is_parse_of(parsed, record, parse) && first_invalid(parsed) is None && row.1@
            == numbers_of(parsed)
}

/// Whether reading the record may fail as `error` says: the record has no
/// field, or some field after the label is no number and is the first such
/// field.
pub open spec fn is_failure_of<P: Fn(&str) -> Option<u64>>(
    error: LoadError,
    index: int,
    record: Seq<Seq<char>>,
    parse: P,
) -> bool {
    if record.len() == 0 {
        error == LoadError::Malformed
    } else {
        exists|parsed: Seq<Option<u64>>|
            #![trigger is_parse_of(parsed, record, parse)]
            is_parse_of(parsed, record, parse) && first_invalid(parsed) is Some && error == (
            LoadError::InvalidValue {
                row: (index + 2) as u128,
                column: (first_invalid(parsed).unwrap() + 2) as u128,
            })
    }
}

/// Reads one row from a record. `index` counts the records from zero.
pub fn row_from_record<P: Fn(&str) -> Option<u64>>(
    index: usize,
    record: &Vec<String>,
    parse: &P,
) -> (r: Result<(String, Vec<u64>), LoadError>)
    requires
        forall|field: &str| call_requires(*parse, (field,)),
    ensures
        match r {
            Ok(row) => is_row_of(row, fields_of(*record), *parse),
            Err(e) => is_failure_of(e, index as int, fields_of(*record), *parse),
        },
{
    let ghost fields = fields_of(*record);
    if record.len() == 0 {
        return Err(LoadError::Malformed);
    }
    let label = record[0].clone();
    let mut parsed: Vec<Option<u64>> = Vec::new();
    let mut c: usize = 1;
    while c < record.len()
        invariant
            1 <= c <= record.len(),
            fields == fields_of(*record),
            parsed.len() + 1 == c,
            forall|field: &str| call_requires(*parse, (field,)),
            forall|e: int|
                0 <= e < parsed.len() ==> may_parse_to(*parse, fields[e + 1], #[trigger] parsed[e]),
        decreases record.len() - c,
    {
        let field = record[c].as_str();
        let value = parse(field);
        proof {
            assert(field@ == fields[c as int]);
            assert(may_parse_to(*parse, fields[c as int], value));
        }
        parsed.push(value);
        c += 1;
    }
    proof {
        assert(is_parse_of(parsed@, fields, *parse));
    }
    match samples_from_parsed(index, &parsed) {
        Ok(samples) => Ok((label, samples)),
        Err(e) => Err(e),
    }
}

/// Whether `rows` holds one row for each record, read from it.
pub open spec fn is_matrix_of<P: Fn(&str) -> Option<u64>>(
    rows: Seq<(String, Vec<u64>)>,
    records: Seq<Seq<Seq<char>>>,
    parse: P,
) -> bool {
    &&& rows.len() == records.len()
    &&& forall|r: int| 0 <= r < rows.len() ==> is_row_of(#[trigger] rows[r], records[r], parse)
}

/// Whether reading the records may fail as `error` says: some record fails
/// so, and every record before it can be read.
pub open spec fn is_matrix_failure_of<P: Fn(&str) -> Option<u64>>(
    error: LoadError,
    records: Seq<Seq<Seq<char>>>,
    parse: P,
) -> bool {
    exists|r: int, rows: Seq<(String, Vec<u64>)>|
        #![trigger is_matrix_of(rows, records.take(r), parse)]
        0 <= r < records.len() && is_matrix_of(rows, records.take(r), parse) && is_failure_of(
            error,
            r,
            records[r],
            parse,
        )
}

/// Reads the rows of a matrix from its records, and stops at the first record
/// that cannot be read.
pub fn rows_from_records<P: Fn(&str) -> Option<u64>>(records: &Vec<Vec<String>>, parse: &P) -> (r:
    Result<Vec<(String, Vec<u64>)>, LoadError>)
    requires
        forall|field: &str| call_requires(*parse, (field,)),
    ensures
        match r {
            Ok(rows) => is_matrix_of(rows@, texts(records@), *parse),
            Err(e) => is_matrix_failure_of(e, texts(records@), *parse),
        },
{
    let mut rows: Vec<(String, Vec<u64>)> = Vec::new();
    let mut r: usize = 0;
    while r < records.len()
        invariant
            r <= records.len(),
            forall|field: &str| call_requires(*parse, (field,)),
            is_matrix_of(rows@, texts(records@).take(r as int), *parse),
        decreases records.len() - r,
    {
        proof {
            assert(fields_of(records[r as int]) == texts(records@)[r as int]);
        }
        match row_from_record(r, &records[r], parse) {
            Ok(row) => {
                rows.push(row);
            },
            Err(e) => {
                return Err(e);
            },
        }
        r += 1;
    }
    proof {
        assert(texts(records@).take(records@.len() as int) =~= texts(records@));
    }
    Ok(rows)
}

} // verus!
