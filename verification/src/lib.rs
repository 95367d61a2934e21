//! Counting lines, words, characters, bytes and line widths of text, and
//! laying the counts out in aligned columns.
//!
//! A [`Scanner`] takes the content of one file piece by piece and gives its
//! [`Metrics`]; [`print_count`] lays the counts of several files out as a
//! report with a row for each file and a row of totals.

pub mod decimal;
pub mod decoding;
pub mod layout;
pub mod metrics;
pub mod options;
pub mod scanner;
pub mod text;

pub use crate::layout::{
    calculate_total_and_max_width_per_column, print_count, print_metrics, render, sums_fit,
};
pub use crate::metrics::{IoCause, Metrics, ScanError};
pub use crate::options::{Column, ShowOptions};
pub use crate::scanner::{count, Scanner};
pub use crate::text::is_whitespace;
