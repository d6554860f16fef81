//! All-pairs correlation between the rows of two labelled matrices, with
//! multiple-testing correction of the resulting p-values.
//!
//! Every pair of rows, one from each matrix, is scored with a correlation
//! coefficient and a p-value. The scored pairs are ordered by p-value where the
//! correction depends on rank, ranked, filtered by the magnitude of the
//! coefficient and corrected.
//!
//! Numbers are carried as the bit patterns of double-precision values (see
//! [`double`]). The library orders and compares them, and leaves arithmetic on
//! them to the functions that its callers hand in.

pub mod adjustment;
pub mod correlation;
pub mod double;
pub mod encoding;
pub mod engine;
pub mod experiment;
pub mod external_sort;
pub mod matrix;
