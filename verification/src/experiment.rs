//! Experiments: scored pairs, and the run from the contents of two files to
//! the corrected results.

use crate::adjustment::{adjust_all, lemma_adjusted_is_probability, AdjustmentMethod};
use crate::double::{
    compare, comparison, is_probability, magnitude_reaches, order_key, order_key_of,
};
use crate::encoding::{
    deserialize_fields, lemma_record_bytes_len, lemma_record_bytes_prefix_free, record_bytes,
    serialize_fields,
};
use crate::engine::{
    all_kept_and_corrected, attach_adjusted, check_shape, has_shape, is_outcome, is_stages,
    lemma_survivors_keep_their_place, lemma_survivors_len, order_for_ranking, rank_and_filter,
    ranked_views, scale_p_values, score_pairs, survivors, with_adjusted, EngineError,
};
use crate::external_sort::order::views;
use crate::external_sort::Sortable;
use crate::matrix::{
    is_matrix_failure_of, is_matrix_of, matrix_records, rows_from_records, split_records, LoadError,
};
use std::cmp::Ordering;
use vstd::prelude::*;
use vstd::std_specs::cmp::PartialOrdSpecImpl;
use vstd::string::*;
use vstd::utf8::*;

verus! {

/// The rows of a matrix: each a label with its samples.
pub type Batch = Vec<(String, Vec<u64>)>;

/// One scored pair of rows: the labels of the two rows, the correlation
/// coefficient, its p-value and, once it is corrected, the corrected p-value.
/// The numbers are bit patterns of doubles.
#[derive(Clone, PartialEq, Debug)]
pub struct CorResult {
    pub gene: String,
    pub gem: String,
    pub correlation: u64,
    pub p_value: u64,
    pub adjusted_p_value: Option<u64>,
}

/// What a scored pair holds.
pub struct CorResultView {
    pub gene: Seq<char>,
    pub gem: Seq<char>,
    pub correlation: u64,
    pub p_value: u64,
    pub adjusted_p_value: Option<u64>,
}

impl View for CorResult {
    type V = CorResultView;

    open spec fn view(&self) -> CorResultView {
        CorResultView {
            gene: self.gene@,
            gem: self.gem@,
            correlation: self.correlation,
            p_value: self.p_value,
            adjusted_p_value: self.adjusted_p_value,
        }
    }
}

impl PartialOrd for CorResult {
    /// Scored pairs compare as their p-values do.
    fn partial_cmp(&self, other: &Self) -> (r: Option<Ordering>) {
        compare(self.p_value, other.p_value)
    }
}

impl PartialOrdSpecImpl for CorResult {
    open spec fn obeys_partial_cmp_spec() -> bool {
        true
    }

    open spec fn partial_cmp_spec(&self, other: &Self) -> Option<Ordering> {
        comparison(self.p_value, other.p_value)
    }
}

impl Sortable for CorResult {
    /// Scored pairs are ordered by their p-value alone.
    open spec fn key_of(v: CorResultView) -> u64 {
        order_key(v.p_value)
    }

    open spec fn encoding_of(v: CorResultView) -> Seq<u8> {
        record_bytes(v.gene, v.gem, v.correlation, v.p_value, v.adjusted_p_value)
    }

    proof fn lemma_encoding_is_prefix_free(a: CorResultView, b: CorResultView) {
        lemma_record_bytes_prefix_free(
            a.gene,
            a.gem,
            a.correlation,
            a.p_value,
            a.adjusted_p_value,
            b.gene,
            b.gem,
            b.correlation,
            b.p_value,
            b.adjusted_p_value,
        );
    }

    /// Every scored pair can be encoded.
    open spec fn can_encode(v: CorResultView) -> bool {
        true
    }

    proof fn lemma_encoding_is_not_empty(v: CorResultView) {
        lemma_record_bytes_len(v.gene, v.gem, v.correlation, v.p_value, v.adjusted_p_value);
    }

    fn sort_key(&self) -> (k: u64) {
        order_key_of(self.p_value)
    }

    fn encode(&self, out: &mut Vec<u8>) -> (written: bool) {
        match serialize_fields(
            &self.gene,
            &self.gem,
            self.correlation,
            self.p_value,
            self.adjusted_p_value,
        ) {
            Ok(bytes) => {
                let mut bytes = bytes;
                out.append(&mut bytes);
                true
            },
            Err(_) => false,
        }
    }

    fn decode(bytes: &[u8], start: usize) -> (r: Option<(Self, usize)>) {
        match deserialize_fields(bytes, start) {
            Ok(fields) => {
                let (gene, gem, correlation, p_value, adjusted_p_value) = fields;
                let ghost encoded = record_bytes(
                    gene@,
                    gem@,
                    correlation,
                    p_value,
                    adjusted_p_value,
                );
                let end = bytes.len();
                proof {
                    lemma_record_bytes_len(gene@, gem@, correlation, p_value, adjusted_p_value);
                    assert(encoded.len() <= bytes@.skip(start as int).len());
                    assert(start + encoded.len() <= end);
                }
                let gene_text = gene.as_str();
                let gem_text = gem.as_str();
                let gene_len = gene_text.len();
                let gem_len = gem_text.len();
                proof {
                    assert(gene_text.spec_bytes() == encode_utf8(gene@));
                    assert(gem_text.spec_bytes() == encode_utf8(gem@));
                    assert(gene_len == encode_utf8(gene@).len());
                    assert(gem_len == encode_utf8(gem@).len());
                }
                let last: usize = if adjusted_p_value.is_some() {
                    9
                } else {
                    1
                };
                let next = start + 32 + gene_len + gem_len + last;
                let record = CorResult { gene, gem, correlation, p_value, adjusted_p_value };
                proof {
                    assert(bytes@.subrange(start as int, next as int) =~= bytes@.skip(
                        start as int,
                    ).subrange(0, encoded.len() as int));
                }
                Some((record, next))
            },
            Err(_) => {
                proof {
                    assert forall|v: CorResultView|
                        !(#[trigger] Self::encoding_of(v)).is_prefix_of(
                            bytes@.skip(start as int),
                        ) by {
                        assert(!record_bytes(
                            v.gene,
                            v.gem,
                            v.correlation,
                            v.p_value,
                            v.adjusted_p_value,
                        ).is_prefix_of(bytes@.skip(start as int)));
                    }
                }
                None
            },
        }
    }
}

/// Why an experiment gave no result.
#[derive(Clone, Copy, Debug, PartialEq, Eq)]
pub enum ExperimentError {
    /// A matrix could not be read.
    Load(LoadError),
    /// The engine failed.
    Engine(EngineError),
}

/// Whether `rows` is the matrix that the text holds.
pub open spec fn is_loaded<P: Fn(&str) -> Option<u64>>(
    rows: Seq<(String, Vec<u64>)>,
    data: Seq<u8>,
    parse_sample: P,
) -> bool {
    matrix_records(data) is Some && is_matrix_of(rows, matrix_records(data).unwrap(), parse_sample)
}

/// Whether reading the text as a matrix may fail as `error` says.
pub open spec fn is_load_failure<P: Fn(&str) -> Option<u64>>(
    error: LoadError,
    data: Seq<u8>,
    parse_sample: P,
) -> bool {
    match matrix_records(data) {
        None => error == LoadError::Malformed,
        Some(records) => is_matrix_failure_of(error, records, parse_sample),
    }
}

/// Whether reading both texts may fail as `error` says: the first text fails
/// so, or it holds a matrix without rows, or it holds a matrix and the second
/// text fails so.
pub open spec fn is_load_failure_of_both<P: Fn(&str) -> Option<u64>>(
    error: LoadError,
    data1: Seq<u8>,
    data2: Seq<u8>,
    parse_sample: P,
) -> bool {
    ||| is_load_failure(error, data1, parse_sample)
    ||| (error == LoadError::Empty && matrix_records(data1) == Some(
        Seq::<Seq<Seq<char>>>::empty(),
    ))
    ||| (exists|rows: Seq<(String, Vec<u64>)>| #[trigger]
        is_loaded(rows, data1, parse_sample) && rows.len() > 0) && is_load_failure(
        error,
        data2,
        parse_sample,
    )
}

/// Whether `results` is what an experiment on the two texts may give: the
/// texts hold two matrices, the first with a row at least, all of whose rows
/// have as many samples as the first row of the first matrix, and `results`
/// is what the engine may give for them.
pub open spec fn is_run_of<
    P: Fn(&str) -> Option<u64>,
    C: Fn(&Vec<u64>, &Vec<u64>) -> (u64, u64),
    S: Fn(AdjustmentMethod, u64, u64, u64) -> u64,
>(
    results: Seq<CorResultView>,
    data1: Seq<u8>,
    data2: Seq<u8>,
    parse_sample: P,
    correlate: C,
    threshold: u64,
    method: AdjustmentMethod,
    scale: S,
) -> bool {
    exists|m1: Seq<(String, Vec<u64>)>, m3: Seq<(String, Vec<u64>)>|
        #![trigger is_loaded(m1, data1, parse_sample), is_loaded(m3, data2, parse_sample)]
        {
            &&& is_loaded(m1, data1, parse_sample)
            &&& is_loaded(m3, data2, parse_sample)
            &&& m1.len() > 0
            &&& has_shape(m1, m1[0].1@.len() as usize)
            &&& has_shape(m3, m1[0].1@.len() as usize)
            &&& is_outcome(results, m1, m3, correlate, threshold, method, scale)
        }
}

/// Whether an experiment on the two texts may fail in the engine: the texts
/// hold two matrices, the first with a row at least, and not all of their
/// rows have as many samples as the first row of the first matrix.
pub open spec fn is_run_failure_of<P: Fn(&str) -> Option<u64>>(
    data1: Seq<u8>,
    data2: Seq<u8>,
    parse_sample: P,
) -> bool {
    exists|m1: Seq<(String, Vec<u64>)>, m3: Seq<(String, Vec<u64>)>|
        #![trigger is_loaded(m1, data1, parse_sample), is_loaded(m3, data2, parse_sample)]
        {
            &&& is_loaded(m1, data1, parse_sample)
            &&& is_loaded(m3, data2, parse_sample)
            &&& m1.len() > 0
            &&& !(has_shape(m1, m1[0].1@.len() as usize) && has_shape(
                m3,
                m1[0].1@.len() as usize,
            ))
        }
}

/// An experiment: a source of two matrices, whose rows are correlated pair by
/// pair.
pub trait Computation {
    /// Correlates every row of the first matrix with every row of the second.
    ///
    /// Every pair is scored by `correlate`, and carries the label of its row
    /// of the first matrix first. The pairs are formed row by row of the
    /// matrix with more rows, the second where both have as many. For a
    /// rank-based correction the scored pairs are sorted by p-value, with a
    /// buffer of `sort_buf_size` records. Each pair then has its place as its
    /// rank. The pairs whose coefficient reaches `correlation_threhold` in
    /// magnitude are kept, `scale` scales their p-values, given each one's
    /// rank and the number of all pairs, and the correction is completed.
    ///
    /// The call fails, before any pair is scored, exactly where a row does
    /// not hold `number_of_columns` samples.
    fn all_vs_all<
        C: Fn(&Vec<u64>, &Vec<u64>) -> (u64, u64),
        S: Fn(AdjustmentMethod, u64, u64, u64) -> u64,
    >(
        &self,
        m1: Batch,
        len_m1: u64,
        m3: Batch,
        len_m3: u64,
        number_of_columns: usize,
        correlate: &C,
        correlation_threhold: u64,
        sort_buf_size: u64,
        adjustment_method: AdjustmentMethod,
        scale: &S,
    ) -> (r: Result<Vec<CorResult>, EngineError>)
        requires
            len_m1 == m1@.len(),
            len_m3 == m3@.len(),
            forall|xs: &Vec<u64>, ys: &Vec<u64>|
                xs@.len() == number_of_columns && ys@.len() == number_of_columns
                    ==> call_requires(*correlate, (xs, ys)),
            forall|m: AdjustmentMethod, p: u64, rank: u64, count: u64|
                call_requires(*scale, (m, p, rank, count)),
        ensures
            r is Ok <==> has_shape(m1@, number_of_columns) && has_shape(m3@, number_of_columns),
            match r {
                Ok(results) => {
                    &&& is_outcome(
                        views(results@),
                        m1@,
                        m3@,
                        *correlate,
                        correlation_threhold,
                        adjustment_method,
                        *scale,
                    )
                    &&& results@.len() <= len_m1 * len_m3
                    &&& all_kept_and_corrected(views(results@), correlation_threhold)
                },
                Err(e) => e == EngineError::ShapeMismatch,
            },
    {
        if !check_shape(&m1, number_of_columns) || !check_shape(&m3, number_of_columns) {
            return Err(EngineError::ShapeMismatch);
        }
        let scored = score_pairs(&m1, &m3, correlate);
        let total = scored.len() as u64;
        let ghost scored_views = views(scored@);
        let ordered = order_for_ranking(scored, sort_buf_size, adjustment_method);
        let ghost ordered_views = views(ordered@);
        proof {
            assert(views(ordered@).len() == ordered@.len());
            assert(ordered_views.len() == scored_views.len());
        }
        let kept = rank_and_filter(ordered, correlation_threhold);
        let scaled = scale_p_values(&kept, adjustment_method, total, scale);
        let corrected = adjust_all(adjustment_method, &scaled);
        let ghost kept_views = ranked_views(kept@);
        let results = attach_adjusted(kept, &corrected);
        proof {
            lemma_survivors_len(ordered_views, correlation_threhold);
            assert(kept_views == survivors(ordered_views, correlation_threhold));
            assert(views(results@).len() == results@.len());
            assert(results@.len() == kept_views.len());
            assert(scaled@.len() == kept_views.len());
            assert(is_stages(
                views(results@),
                m1@,
                m3@,
                *correlate,
                correlation_threhold,
                adjustment_method,
                *scale,
                scored_views,
                scaled@,
            ));
            assert forall|k: int| 0 <= k < views(results@).len() implies {
                &&& magnitude_reaches(
                    (#[trigger] views(results@)[k]).correlation,
                    correlation_threhold,
                )
                &&& views(results@)[k].adjusted_p_value is Some
                &&& is_probability(views(results@)[k].adjusted_p_value.unwrap())
            } by {
                lemma_survivors_keep_their_place(ordered_views, correlation_threhold, k);
                lemma_adjusted_is_probability(adjustment_method, scaled@, k);
                assert(views(results@)[k] == with_adjusted(kept_views[k].1, corrected@[k]));
            }
        }
        Ok(results)
    }

    /// Reads a matrix from tab-delimited text: one row for each record, with
    /// the record's first field as its label and the numbers of all further
    /// fields as its samples. Reading stops at the first field that
    /// `parse_sample` does not take for a number.
    fn get_df<P: Fn(&str) -> Option<u64>>(&self, data: &[u8], parse_sample: &P) -> (r: Result<
        Batch,
        LoadError,
    >)
        requires
            forall|field: &str| call_requires(*parse_sample, (field,)),
        ensures
            match r {
                Ok(rows) => is_loaded(rows@, data@, *parse_sample),
                Err(e) => is_load_failure(e, data@, *parse_sample),
            },
    {
        let records = split_records(data)?;
        rows_from_records(&records, parse_sample)
    }

    /// Reads both matrices, and gives them with their numbers of rows and
    /// with the number of columns, which is the number of samples in the
    /// first row of the first matrix.
    fn get_both_df_and_shape<P: Fn(&str) -> Option<u64>>(
        &self,
        data1: &[u8],
        data2: &[u8],
        parse_sample: &P,
    ) -> (r: Result<(Batch, u64, Batch, u64, usize), LoadError>)
        requires
            forall|field: &str| call_requires(*parse_sample, (field,)),
        ensures
            match r {
                Ok((m1, len_m1, m3, len_m3, number_of_columns)) => {
                    &&& is_loaded(m1@, data1@, *parse_sample)
                    &&& is_loaded(m3@, data2@, *parse_sample)
                    &&& len_m1 == m1@.len()
                    &&& len_m3 == m3@.len()
                    &&& m1@.len() > 0
                    &&& number_of_columns == m1@[0].1@.len()
                },
                Err(e) => is_load_failure_of_both(e, data1@, data2@, *parse_sample),
            },
    {
        let m1 = self.get_df(data1, parse_sample)?;
        if m1.len() == 0 {
            proof {
                assert(matrix_records(data1@).unwrap() =~= Seq::<Seq<Seq<char>>>::empty());
            }
            return Err(LoadError::Empty);
        }
        let number_of_columns = m1[0].1.len();
        let len_m1 = m1.len() as u64;
        let m3 = self.get_df(data2, parse_sample)?;
        let len_m3 = m3.len() as u64;
        Ok((m1, len_m1, m3, len_m3, number_of_columns))
    }

    /// Runs the experiment: gets the two matrices from their source and
    /// correlates every row of one with every row of the other. Numbers are
    /// read by `parse_sample`, pairs are scored by `correlate`, and p-values
    /// are scaled by `scale`.
    fn compute<
        P: Fn(&str) -> Option<u64>,
        C: Fn(&Vec<u64>, &Vec<u64>) -> (u64, u64),
        S: Fn(AdjustmentMethod, u64, u64, u64) -> u64,
    >(
        &self,
        parse_sample: &P,
        correlate: &C,
        correlation_threhold: u64,
        sort_buf_size: u64,
        adjustment_method: AdjustmentMethod,
        scale: &S,
    ) -> (r: Result<Vec<CorResult>, ExperimentError>)
        requires
            forall|field: &str| call_requires(*parse_sample, (field,)),
            forall|xs: &Vec<u64>, ys: &Vec<u64>|
                xs@.len() == ys@.len() ==> call_requires(*correlate, (xs, ys)),
            forall|m: AdjustmentMethod, p: u64, rank: u64, count: u64|
                call_requires(*scale, (m, p, rank, count)),
        ensures
            r matches Ok(results) ==> all_kept_and_corrected(views(results@), correlation_threhold),
    ;
}

/// An experiment on the contents of two files of tab-delimited text.
pub struct ExperimentFromFiles {
    file_1: Vec<u8>,
    file_2: Vec<u8>,
}

impl ExperimentFromFiles {
    /// The contents of the first file.
    pub closed spec fn first(&self) -> Seq<u8> {
        self.file_1@
    }

    /// The contents of the second file.
    pub closed spec fn second(&self) -> Seq<u8> {
        self.file_2@
    }
}

impl Computation for ExperimentFromFiles {
    /// Reads both matrices and correlates every row of one with every row of
    /// the other. The number of columns is the number of samples in the first
    /// row of the first matrix.
    fn compute<
        P: Fn(&str) -> Option<u64>,
        C: Fn(&Vec<u64>, &Vec<u64>) -> (u64, u64),
        S: Fn(AdjustmentMethod, u64, u64, u64) -> u64,
    >(
        &self,
        parse_sample: &P,
        correlate: &C,
        correlation_threhold: u64,
        sort_buf_size: u64,
        adjustment_method: AdjustmentMethod,
        scale: &S,
    ) -> (r: Result<Vec<CorResult>, ExperimentError>)
        ensures
            match r {
                Ok(results) => is_run_of(
                    views(results@),
                    self.first(),
                    self.second(),
                    *parse_sample,
                    *correlate,
                    correlation_threhold,
                    adjustment_method,
                    *scale,
                ),
                Err(ExperimentError::Load(e)) => is_load_failure_of_both(
                    e,
                    self.first(),
                    self.second(),
                    *parse_sample,
                ),
                Err(ExperimentError::Engine(e)) => e == EngineError::ShapeMismatch
                    && is_run_failure_of(self.first(), self.second(), *parse_sample),
            },
    {
        let (m1, len_m1, m3, len_m3, number_of_columns) = match self.get_both_df_and_shape(
            self.file_1.as_slice(),
            self.file_2.as_slice(),
            parse_sample,
        ) {
            Ok(loaded) => loaded,
            Err(e) => {
                return Err(ExperimentError::Load(e));
            },
        };
        let ghost first = m1@;
        let ghost second = m3@;
        match self.all_vs_all(
            m1,
            len_m1,
            m3,
            len_m3,
            number_of_columns,
            correlate,
            correlation_threhold,
            sort_buf_size,
            adjustment_method,
            scale,
        ) {
            Ok(results) => {
                proof {
                    assert(is_loaded(first, self.first(), *parse_sample) && is_loaded(
                        second,
                        self.second(),
                        *parse_sample,
                    ));
                }
                Ok(results)
            },
            Err(e) => {
                proof {
                    assert(is_loaded(first, self.first(), *parse_sample) && is_loaded(
                        second,
                        self.second(),
                        *parse_sample,
                    ));
                }
                Err(ExperimentError::Engine(e))
            },
        }
    }
}

/// An experiment on the contents of two files.
pub fn new_from_files(file_1: Vec<u8>, file_2: Vec<u8>) -> (experiment: ExperimentFromFiles)
    ensures
        experiment.first() == file_1@,
        experiment.second() == file_2@,
{
    ExperimentFromFiles { file_1, file_2 }
}

} // verus!
