//! The record of one file's counts, and the ways in which counting a file
//! fails.

use crate::options::Column;
use vstd::prelude::*;

verus! {

/// The counts of one file, or of all files together, with the name that
/// its row is printed under.
#[derive(Debug)]
pub struct Metrics {
    pub bytes: usize,
    pub chars: usize,
    pub lines: usize,
    pub words: usize,
    pub max_line_length: usize,
    pub filename: String,
}

/// A `Metrics` record as plain mathematical values.
pub struct MetricsView {
    pub bytes: nat,
    pub chars: nat,
    pub lines: nat,
    pub words: nat,
    pub max_line_length: nat,
    pub filename: Seq<char>,
}

impl MetricsView {
    /// The count that stands in `column`.
    pub open spec fn get(self, column: Column) -> nat {
        match column {
            Column::Lines => self.lines,
            Column::Words => self.words,
            Column::Chars => self.chars,
            Column::Bytes => self.bytes,
            Column::MaxLineLength => self.max_line_length,
        }
    }
}

impl View for Metrics {
    type V = MetricsView;

    open spec fn view(&self) -> MetricsView {
        MetricsView {
            bytes: self.bytes as nat,
            chars: self.chars as nat,
            lines: self.lines as nat,
            words: self.words as nat,
            max_line_length: self.max_line_length as nat,
            filename: self.filename@,
        }
    }
}

impl Clone for Metrics {
    fn clone(&self) -> (r: Self)
        ensures
            r@ == self@,
    {
        Metrics {
            bytes: self.bytes,
            chars: self.chars,
            lines: self.lines,
            words: self.words,
            max_line_length: self.max_line_length,
            filename: self.filename.clone(),
        }
    }
}

/// Why a file could not be opened or read.
#[derive(Clone, Copy, Debug, PartialEq, Eq, Structural)]
pub enum IoCause {
    NotFound,
    PermissionDenied,
    Other,
}

/// Why counting a file failed.
#[derive(Debug)]
pub enum ScanError {
    /// The file could not be opened or read.
    IoError { path: String, cause: IoCause },
    /// The file's content is not UTF-8. `offset` is the number of bytes
    /// before the place where reading it as UTF-8 stops.
    InvalidEncoding { path: String, offset: usize },
}

/// A `ScanError` as plain mathematical values.
pub enum ScanErrorView {
    IoError { path: Seq<char>, cause: IoCause },
    InvalidEncoding { path: Seq<char>, offset: nat },
}

impl View for ScanError {
    type V = ScanErrorView;

    open spec fn view(&self) -> ScanErrorView {
        match *self {
            ScanError::IoError { path, cause } => ScanErrorView::IoError { path: path@, cause },
            ScanError::InvalidEncoding { path, offset } => ScanErrorView::InvalidEncoding {
                path: path@,
                offset: offset as nat,
            },
        }
    }
}

impl Clone for ScanError {
    fn clone(&self) -> (r: Self)
        ensures
            r@ == self@,
    {
        match self {
            ScanError::IoError { path, cause } => ScanError::IoError {
                path: path.clone(),
                cause: *cause,
            },
            ScanError::InvalidEncoding { path, offset } => ScanError::InvalidEncoding {
                path: path.clone(),
                offset: *offset,
            },
        }
    }
}

/// The outcome of counting one file as plain mathematical values.
pub open spec fn outcome_view(outcome: Result<Metrics, ScanError>) -> Result<
    MetricsView,
    ScanErrorView,
> {
    match outcome {
        Ok(m) => Ok(m@),
        Err(e) => Err(e@),
    }
}

} // verus!
