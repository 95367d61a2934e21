//! The report: one row of counts for each file, a row of totals after more
//! than one file, and columns wide enough for every row.

use crate::decimal::{
    count_digits, decimal, digit_count, justified, lemma_digit_count_monotonic, push_justified, SPACE,
};
use crate::metrics::{Metrics, MetricsView, ScanError, ScanErrorView};
use crate::options::{Column, ShowOptions};
use vstd::prelude::*;
use vstd::utf8::*;

verus! {

/// The width that a column has at least, unless a row shows one count only.
pub const MIN_WIDTH: usize = 8;

/// The byte that ends a row.
pub const NEWLINE: u8 = 10;

/// The rows as plain mathematical values.
pub open spec fn views(rows: Seq<Metrics>) -> Seq<MetricsView> {
    Seq::new(rows.len(), |i: int| rows[i]@)
}

/// The sum of what `column` holds in `rows`.
pub open spec fn column_sum(rows: Seq<MetricsView>, column: Column) -> nat
    decreases rows.len(),
{
    if rows.len() == 0 {
        0
    } else {
        column_sum(rows.drop_last(), column) + rows.last().get(column)
    }
}

/// The greatest of what `column` holds in `rows`; 0 where there is no row.
pub open spec fn column_max(rows: Seq<MetricsView>, column: Column) -> nat
    decreases rows.len(),
{
    if rows.len() == 0 {
        0
    } else {
        let before = column_max(rows.drop_last(), column);
        if rows.last().get(column) > before {
            rows.last().get(column)
        } else {
            before
        }
    }
}

/// The row of totals: the sums of lines, words, characters and bytes, and
/// the greatest of the line widths.
pub open spec fn total_of(rows: Seq<MetricsView>) -> MetricsView {
    MetricsView {
        bytes: column_sum(rows, Column::Bytes),
        chars: column_sum(rows, Column::Chars),
        lines: column_sum(rows, Column::Lines),
        words: column_sum(rows, Column::Words),
        max_line_length: column_max(rows, Column::MaxLineLength),
        filename: "total"@,
    }
}

/// True when each sum of the row of totals fits the machine's word.
pub open spec fn totals_fit(rows: Seq<MetricsView>) -> bool {
    &&& column_sum(rows, Column::Bytes) <= usize::MAX
    &&& column_sum(rows, Column::Chars) <= usize::MAX
    &&& column_sum(rows, Column::Lines) <= usize::MAX
    &&& column_sum(rows, Column::Words) <= usize::MAX
}

/// The greatest number that a report prints in `column`: the greatest of
/// the rows, or the total where a row of totals follows them and is greater.
pub open spec fn column_peak(rows: Seq<MetricsView>, column: Column) -> nat {
    let peak = column_max(rows, column);
    if rows.len() > 1 && total_of(rows).get(column) > peak {
        total_of(rows).get(column)
    } else {
        peak
    }
}

/// The width of a column whose greatest number is `peak`: that of the
/// number, and `MIN_WIDTH` at least.
pub open spec fn field_width(peak: nat) -> nat {
    if digit_count(peak) > MIN_WIDTH {
        digit_count(peak)
    } else {
        MIN_WIDTH as nat
    }
}

/// The width of each column of a report of `rows`, held under the name of
/// the column's count.
pub open spec fn widths_of(rows: Seq<MetricsView>) -> MetricsView {
    MetricsView {
        bytes: field_width(column_peak(rows, Column::Bytes)),
        chars: field_width(column_peak(rows, Column::Chars)),
        lines: field_width(column_peak(rows, Column::Lines)),
        words: field_width(column_peak(rows, Column::Words)),
        max_line_length: field_width(column_peak(rows, Column::MaxLineLength)),
        filename: Seq::empty(),
    }
}

/// The width of each column of a report of `rows` where no least width
/// holds: that of the column's greatest number.
pub open spec fn natural_widths_of(rows: Seq<MetricsView>) -> MetricsView {
    MetricsView {
        bytes: digit_count(column_peak(rows, Column::Bytes)),
        chars: digit_count(column_peak(rows, Column::Chars)),
        lines: digit_count(column_peak(rows, Column::Lines)),
        words: digit_count(column_peak(rows, Column::Words)),
        max_line_length: digit_count(column_peak(rows, Column::MaxLineLength)),
        filename: Seq::empty(),
    }
}

/// The widths that a report of `rows` is laid out with. A report that
/// shows one count only has no least width, so that its greatest number
/// begins the line.
pub open spec fn layout_widths(rows: Seq<MetricsView>, opts: ShowOptions) -> MetricsView {
    if opts.spec_shown() == 1 {
        natural_widths_of(rows)
    } else {
        widths_of(rows)
    }
}

/// The width left to a field that follows another: one less than its
/// column's, the space before it being the other field's.
pub open spec fn narrowed(width: nat) -> nat {
    if width > 0 {
        (width - 1) as nat
    } else {
        0
    }
}

/// One field of a row with the space after it, or nothing where the count
/// is not shown.
pub open spec fn cell_bytes(value: nat, width: nat, shown: bool, follows: bool) -> Seq<u8> {
    if shown {
        justified(
            value,
            if follows {
                narrowed(width)
            } else {
                width
            },
        ).push(SPACE)
    } else {
        Seq::empty()
    }
}

/// The field of `column` in the row of `m`. `follows` says whether a field
/// stands before it.
pub open spec fn cell(
    m: MetricsView,
    opts: ShowOptions,
    widths: MetricsView,
    column: Column,
    follows: bool,
) -> Seq<u8> {
    cell_bytes(m.get(column), widths.get(column), opts.spec_shows(column), follows)
}

/// The row of `m`: the counts that `opts` shows, in the order lines, words,
/// characters, bytes, line width, each at the right of its field and with a
/// space after it; then the name and a line feed.
pub open spec fn row_bytes(m: MetricsView, opts: ShowOptions, widths: MetricsView) -> Seq<u8> {
    let lines = opts.spec_shows(Column::Lines);
    let words = lines || opts.spec_shows(Column::Words);
    let chars = words || opts.spec_shows(Column::Chars);
    let bytes = chars || opts.spec_shows(Column::Bytes);
    cell(m, opts, widths, Column::Lines, false) + cell(m, opts, widths, Column::Words, lines)
        + cell(m, opts, widths, Column::Chars, words) + cell(m, opts, widths, Column::Bytes, chars)
        + cell(m, opts, widths, Column::MaxLineLength, bytes) + encode_utf8(m.filename)
        + seq![NEWLINE]
}

/// The rows of `rows`, one after the other.
pub open spec fn rows_bytes(rows: Seq<MetricsView>, opts: ShowOptions, widths: MetricsView) -> Seq<
    u8,
>
    decreases rows.len(),
{
    if rows.len() == 0 {
        Seq::empty()
    } else {
        rows_bytes(rows.drop_last(), opts, widths) + row_bytes(rows.last(), opts, widths)
    }
}

/// The report of `rows`: a row for each, in order, and after more than one
/// the row of totals.
pub open spec fn render_bytes(rows: Seq<MetricsView>, opts: ShowOptions) -> Seq<u8> {
    let widths = layout_widths(rows, opts);
    rows_bytes(rows, opts, widths) + if rows.len() > 1 {
        row_bytes(total_of(rows), opts, widths)
    } else {
        Seq::empty()
    }
}

/// The first failure among `scans`, if any of them failed.
pub open spec fn first_failure(scans: Seq<Result<Metrics, ScanError>>) -> Option<ScanErrorView>
    decreases scans.len(),
{
    if scans.len() == 0 {
        None
    } else {
        match first_failure(scans.drop_last()) {
            Some(e) => Some(e),
            None => match scans.last() {
                Ok(_) => None,
                Err(e) => Some(e@),
            },
        }
    }
}

/// The counts that `scans` hold, in order, where none of them failed.
pub open spec fn scanned_rows(scans: Seq<Result<Metrics, ScanError>>) -> Seq<MetricsView> {
    Seq::new(scans.len(), |i: int| scans[i]->Ok_0@)
}

/// The sum of a column's first rows is no more than the sum of all.
pub proof fn lemma_sum_of_prefix(rows: Seq<MetricsView>, column: Column, n: int)
    requires
        0 <= n <= rows.len(),
    ensures
        column_sum(rows.take(n), column) <= column_sum(rows, column),
    decreases rows.len(),
{
    if n == rows.len() {
        assert(rows.take(n) =~= rows);
    } else {
        assert(rows.drop_last().take(n) =~= rows.take(n));
        lemma_sum_of_prefix(rows.drop_last(), column, n);
    }
}

/// No row of a column holds more than the column's sum.
pub proof fn lemma_max_within_sum(rows: Seq<MetricsView>, column: Column)
    ensures
        column_max(rows, column) <= column_sum(rows, column),
    decreases rows.len(),
{
    if rows.len() > 0 {
        lemma_max_within_sum(rows.drop_last(), column);
    }
}

/// The greatest number of each column is the one that the row of totals
/// holds, whether or not that row is printed: no sum is less than a part,
/// and the total of the line widths is their greatest.
pub proof fn lemma_peak_is_total(rows: Seq<MetricsView>, column: Column)
    ensures
        column_peak(rows, column) == total_of(rows).get(column),
{
    lemma_max_within_sum(rows, column);
    if rows.len() == 1 {
        assert(rows.drop_last().len() == 0);
        assert(column_sum(rows.drop_last(), column) == 0);
        assert(column_max(rows.drop_last(), column) == 0);
    }
}

/// True when the sums of the row of totals of `ms` fit the machine's word.
pub fn sums_fit(ms: &[Metrics]) -> (r: bool)
    ensures
        r == totals_fit(views(ms@)),
{
    let ghost rows = views(ms@);
    let mut bytes: usize = 0;
    let mut chars: usize = 0;
    let mut lines: usize = 0;
    let mut words: usize = 0;
    let mut i: usize = 0;
    proof {
        assert(rows.take(0).len() == 0);
    }
    while i < ms.len()
        invariant
            i <= ms.len(),
            rows == views(ms@),
            bytes == column_sum(rows.take(i as int), Column::Bytes),
            chars == column_sum(rows.take(i as int), Column::Chars),
            lines == column_sum(rows.take(i as int), Column::Lines),
            words == column_sum(rows.take(i as int), Column::Words),
        decreases ms.len() - i,
    {
        let m = &ms[i];
        proof {
            assert(rows.take(i + 1).drop_last() =~= rows.take(i as int));
            assert(rows.take(i + 1).last() == m@);
            lemma_sum_of_prefix(rows, Column::Bytes, i + 1);
            lemma_sum_of_prefix(rows, Column::Chars, i + 1);
            lemma_sum_of_prefix(rows, Column::Lines, i + 1);
            lemma_sum_of_prefix(rows, Column::Words, i + 1);
        }
        match (
            bytes.checked_add(m.bytes),
            chars.checked_add(m.chars),
            lines.checked_add(m.lines),
            words.checked_add(m.words),
        ) {
            (Some(b), Some(c), Some(l), Some(w)) => {
                bytes = b;
                chars = c;
                lines = l;
                words = w;
            },
            _ => {
                return false;
            },
        }
        i = i + 1;
    }
    proof {
        assert(rows.take(ms.len() as int) =~= rows);
    }
    true
}

fn wider(a: usize, b: usize) -> (r: usize)
    ensures
        r == if a > b {
            a
        } else {
            b
        },
{
    if a > b {
        a
    } else {
        b
    }
}

/// The row of totals of `ms`, and with it the width of each column of the
/// report of `ms`, held under the name of the column's count.
pub fn calculate_total_and_max_width_per_column(ms: &[Metrics]) -> (r: (Metrics, Metrics))
    requires
        totals_fit(views(ms@)),
    ensures
        r.0@ == total_of(views(ms@)),
        r.1@ == widths_of(views(ms@)),
{
    let total = total_row(ms);
    let mwpc = Metrics {
        bytes: wider(count_digits(total.bytes), MIN_WIDTH),
        chars: wider(count_digits(total.chars), MIN_WIDTH),
        lines: wider(count_digits(total.lines), MIN_WIDTH),
        words: wider(count_digits(total.words), MIN_WIDTH),
        max_line_length: wider(count_digits(total.max_line_length), MIN_WIDTH),
        filename: String::new(),
    };
    proof {
        let rows = views(ms@);
        lemma_peak_is_total(rows, Column::Bytes);
        lemma_peak_is_total(rows, Column::Chars);
        lemma_peak_is_total(rows, Column::Lines);
        lemma_peak_is_total(rows, Column::Words);
        lemma_peak_is_total(rows, Column::MaxLineLength);
    }
    (total, mwpc)
}

/// The row of totals of `ms`.
pub fn total_row(ms: &[Metrics]) -> (total: Metrics)
    requires
        totals_fit(views(ms@)),
    ensures
        total@ == total_of(views(ms@)),
{
    let ghost rows = views(ms@);
    let mut total = Metrics {
        bytes: 0,
        chars: 0,
        lines: 0,
        words: 0,
        max_line_length: 0,
        filename: "total".to_owned(),
    };
    let mut i: usize = 0;
    proof {
        assert(rows.take(0).len() == 0);
    }
    while i < ms.len()
        invariant
            i <= ms.len(),
            rows == views(ms@),
            totals_fit(rows),
            total@ == total_of(rows.take(i as int)),
        decreases ms.len() - i,
    {
        let m = &ms[i];
        proof {
            assert(rows.take(i + 1).drop_last() =~= rows.take(i as int));
            assert(rows.take(i + 1).last() == m@);
            lemma_sum_of_prefix(rows, Column::Bytes, i + 1);
            lemma_sum_of_prefix(rows, Column::Chars, i + 1);
            lemma_sum_of_prefix(rows, Column::Lines, i + 1);
            lemma_sum_of_prefix(rows, Column::Words, i + 1);
        }
        total.bytes = total.bytes + m.bytes;
        total.chars = total.chars + m.chars;
        total.lines = total.lines + m.lines;
        total.words = total.words + m.words;
        total.max_line_length = wider(m.max_line_length, total.max_line_length);
        i = i + 1;
    }
    proof {
        assert(rows.take(ms.len() as int) =~= rows);
    }
    total
}

/// The widths of the columns of a report whose row of totals is `total`,
/// where no least width holds.
fn natural_widths(total: &Metrics) -> (widths: Metrics)
    ensures
        widths@ == (MetricsView {
            bytes: digit_count(total@.bytes),
            chars: digit_count(total@.chars),
            lines: digit_count(total@.lines),
            words: digit_count(total@.words),
            max_line_length: digit_count(total@.max_line_length),
            filename: Seq::empty(),
        }),
{
    Metrics {
        bytes: count_digits(total.bytes),
        chars: count_digits(total.chars),
        lines: count_digits(total.lines),
        words: count_digits(total.words),
        max_line_length: count_digits(total.max_line_length),
        filename: String::new(),
    }
}

fn push_cell(out: &mut Vec<u8>, value: usize, width: usize, shown: bool, follows: bool) -> (after:
    bool)
    ensures
        final(out)@ == old(out)@ + cell_bytes(value as nat, width as nat, shown, follows),
        after == (follows || shown),
{
    if shown {
        let room = if follows {
            if width > 0 {
                width - 1
            } else {
                0
            }
        } else {
            width
        };
        let ghost before = out@;
        push_justified(out, value, room);
        out.push(SPACE);
        proof {
            let field = justified(value as nat, room as nat);
            assert((before + field).push(SPACE) =~= before + field.push(SPACE));
        }
        true
    } else {
        proof {
            assert(out@ + Seq::<u8>::empty() =~= out@);
        }
        follows
    }
}

fn push_all(out: &mut Vec<u8>, bytes: &[u8])
    ensures
        final(out)@ == old(out)@ + bytes@,
{
    let ghost before = out@;
    let mut i: usize = 0;
    proof {
        assert(before + bytes@.take(0) =~= before);
    }
    while i < bytes.len()
        invariant
            i <= bytes.len(),
            out@ == before + bytes@.take(i as int),
        decreases bytes.len() - i,
    {
        out.push(bytes[i]);
        proof {
            assert((before + bytes@.take(i as int)).push(bytes@[i as int]) =~= before
                + bytes@.take(i + 1));
        }
        i = i + 1;
    }
    proof {
        assert(bytes@.take(bytes@.len() as int) =~= bytes@);
    }
}

proof fn lemma_row_assembly(
    before: Seq<u8>,
    c0: Seq<u8>,
    c1: Seq<u8>,
    c2: Seq<u8>,
    c3: Seq<u8>,
    c4: Seq<u8>,
    name: Seq<u8>,
)
    ensures
        (before + c0 + c1 + c2 + c3 + c4 + name).push(NEWLINE) == before + (c0 + c1 + c2 + c3 + c4
            + name + seq![NEWLINE]),
{
    assert((before + c0 + c1 + c2 + c3 + c4 + name).push(NEWLINE) =~= before + (c0 + c1 + c2 + c3
        + c4 + name + seq![NEWLINE]));
}

/// Appends to `out` the row of `m`, laid out with the widths that `mwpc`
/// holds under the name of each count.
pub fn print_metrics(out: &mut Vec<u8>, m: &Metrics, opts: &ShowOptions, mwpc: &Metrics)
    ensures
        final(out)@ == old(out)@ + row_bytes(m@, *opts, mwpc@),
{
    let ghost before = out@;
    let follows = push_cell(out, m.lines, mwpc.lines, opts.shows(Column::Lines), false);
    let ghost c0 = cell(m@, *opts, mwpc@, Column::Lines, false);
    assert(out@ == before + c0);
    let ghost c1 = cell(m@, *opts, mwpc@, Column::Words, follows);
    let follows = push_cell(out, m.words, mwpc.words, opts.shows(Column::Words), follows);
    assert(out@ == before + c0 + c1);
    let ghost c2 = cell(m@, *opts, mwpc@, Column::Chars, follows);
    let follows = push_cell(out, m.chars, mwpc.chars, opts.shows(Column::Chars), follows);
    assert(out@ == before + c0 + c1 + c2);
    let ghost c3 = cell(m@, *opts, mwpc@, Column::Bytes, follows);
    let follows = push_cell(out, m.bytes, mwpc.bytes, opts.shows(Column::Bytes), follows);
    assert(out@ == before + c0 + c1 + c2 + c3);
    let ghost c4 = cell(m@, *opts, mwpc@, Column::MaxLineLength, follows);
    let _ = push_cell(
        out,
        m.max_line_length,
        mwpc.max_line_length,
        opts.shows(Column::MaxLineLength),
        follows,
    );
    assert(out@ == before + c0 + c1 + c2 + c3 + c4);
    let name = m.filename.as_str().as_bytes();
    push_all(out, name);
    out.push(NEWLINE);
    proof {
        assert(name@ == encode_utf8(m@.filename));
        lemma_row_assembly(before, c0, c1, c2, c3, c4, name@);
    }
}

/// Appends to `out` the report of `rows`: a row for each, in order, and
/// after more than one the row of totals.
pub fn render(out: &mut Vec<u8>, rows: &[Metrics], opts: &ShowOptions)
    requires
        totals_fit(views(rows@)),
    ensures
        final(out)@ == old(out)@ + render_bytes(views(rows@), *opts),
{
    let ghost before = out@;
    let ghost all = views(rows@);
    let (total, mwpc) = calculate_total_and_max_width_per_column(rows);
    let widths = if opts.is_single() {
        natural_widths(&total)
    } else {
        mwpc
    };
    proof {
        lemma_peak_is_total(all, Column::Bytes);
        lemma_peak_is_total(all, Column::Chars);
        lemma_peak_is_total(all, Column::Lines);
        lemma_peak_is_total(all, Column::Words);
        lemma_peak_is_total(all, Column::MaxLineLength);
        assert(widths@ == layout_widths(all, *opts));
        assert(all.take(0).len() == 0);
        assert(before + rows_bytes(all.take(0), *opts, widths@) =~= before);
    }
    let mut i: usize = 0;
    while i < rows.len()
        invariant
            i <= rows.len(),
            all == views(rows@),
            out@ == before + rows_bytes(all.take(i as int), *opts, widths@),
        decreases rows.len() - i,
    {
        proof {
            assert(all.take(i + 1).drop_last() =~= all.take(i as int));
            assert(all.take(i + 1).last() == rows@[i as int]@);
            let done = rows_bytes(all.take(i as int), *opts, widths@);
            let row = row_bytes(rows@[i as int]@, *opts, widths@);
            assert(before + done + row =~= before + (done + row));
        }
        print_metrics(out, &rows[i], opts, &widths);
        i = i + 1;
    }
    proof {
        assert(all.take(rows.len() as int) =~= all);
    }
    if rows.len() > 1 {
        print_metrics(out, &total, opts, &widths);
        proof {
            let done = rows_bytes(all, *opts, widths@);
            let row = row_bytes(total@, *opts, widths@);
            assert(before + done + row =~= before + (done + row));
        }
    } else {
        proof {
            let done = rows_bytes(all, *opts, widths@);
            assert(before + done =~= before + (done + Seq::<u8>::empty()));
        }
    }
}

/// Appends to `out` the report of the files whose counts `scans` hold, in
/// order. Where counting one of them failed, nothing is appended and the
/// first failure is handed back.
pub fn print_count(out: &mut Vec<u8>, opts: &ShowOptions, scans: &[Result<Metrics, ScanError>]) -> (r:
    Result<(), ScanError>)
    requires
        first_failure(scans@) is None ==> totals_fit(scanned_rows(scans@)),
    ensures
        match r {
            Ok(()) => first_failure(scans@) is None && final(out)@ == old(out)@ + render_bytes(
                scanned_rows(scans@),
                *opts,
            ),
            Err(e) => first_failure(scans@) == Some(e@) && final(out)@ == old(out)@,
        },
{
    let mut rows: Vec<Metrics> = Vec::new();
    let mut i: usize = 0;
    proof {
        assert(scans@.take(0).len() == 0);
        assert(views(rows@) =~= scanned_rows(scans@).take(0));
    }
    while i < scans.len()
        invariant
            i <= scans.len(),
            first_failure(scans@.take(i as int)) is None,
            views(rows@) == scanned_rows(scans@).take(i as int),
            out@ == old(out)@,
        decreases scans.len() - i,
    {
        proof {
            assert(scans@.take(i + 1).drop_last() =~= scans@.take(i as int));
            assert(scans@.take(i + 1).last() == scans@[i as int]);
        }
        match &scans[i] {
            Ok(m) => {
                let ghost known = rows@;
                rows.push(m.clone());
                proof {
                    let target = scanned_rows(scans@).take(i + 1);
                    assert(views(known).len() == known.len());
                    assert forall|j: int| 0 <= j < i + 1 implies views(rows@)[j] == target[j] by {
                        if j < i {
                            assert(views(known)[j] == scanned_rows(scans@).take(i as int)[j]);
                        }
                    }
                    assert(views(rows@) =~= target);
                }
            },
            Err(e) => {
                proof {
                    lemma_failure_stays(scans@, i + 1);
                }
                return Err(e.clone());
            },
        }
        i = i + 1;
    }
    proof {
        assert(scans@.take(scans.len() as int) =~= scans@);
        assert(scanned_rows(scans@).take(scans.len() as int) =~= scanned_rows(scans@));
    }
    render(out, rows.as_slice(), opts);
    Ok(())
}

/// A failure among the first of `scans` is the first failure of them all.
pub proof fn lemma_failure_stays(scans: Seq<Result<Metrics, ScanError>>, n: int)
    requires
        0 <= n <= scans.len(),
        first_failure(scans.take(n)) is Some,
    ensures
        first_failure(scans) == first_failure(scans.take(n)),
    decreases scans.len(),
{
    if n == scans.len() {
        assert(scans.take(n) =~= scans);
    } else {
        assert(scans.drop_last().take(n) =~= scans.take(n));
        lemma_failure_stays(scans.drop_last(), n);
    }
}

/// No row of a column holds more than the column's greatest.
pub proof fn lemma_row_within_max(rows: Seq<MetricsView>, column: Column, i: int)
    requires
        0 <= i < rows.len(),
    ensures
        rows[i].get(column) <= column_max(rows, column),
    decreases rows.len(),
{
    if i < rows.len() - 1 {
        lemma_row_within_max(rows.drop_last(), column, i);
    }
}

/// Every column is as wide as the longest number in it: that of the row of
/// totals, which no row exceeds. With the least width it is no narrower
/// than without.
pub proof fn lemma_width_covers_rows(rows: Seq<MetricsView>, column: Column, i: int)
    requires
        0 <= i < rows.len(),
    ensures
        digit_count(rows[i].get(column)) <= natural_widths_of(rows).get(column),
        digit_count(total_of(rows).get(column)) == natural_widths_of(rows).get(column),
        natural_widths_of(rows).get(column) <= widths_of(rows).get(column),
        MIN_WIDTH <= widths_of(rows).get(column),
{
    lemma_row_within_max(rows, column, i);
    lemma_max_within_sum(rows, column);
    lemma_peak_is_total(rows, column);
    lemma_digit_count_monotonic(rows[i].get(column), column_peak(rows, column));
}

/// The report of one file that shows one count only begins with the
/// count: no space stands before it.
pub proof fn lemma_single_count_starts_the_line(m: MetricsView, opts: ShowOptions, column: Column)
    requires
        opts.spec_shown() == 1,
        opts.spec_shows(column),
    ensures
        render_bytes(seq![m], opts) == decimal(m.get(column)).push(SPACE) + encode_utf8(m.filename)
            + seq![NEWLINE],
{
    let rows = seq![m];
    let widths = layout_widths(rows, opts);
    assert(rows.drop_last().len() == 0);
    assert(rows.last() == m);
    assert(column_max(rows.drop_last(), column) == 0);
    assert(column_peak(rows, column) == m.get(column));
    assert(widths.get(column) == digit_count(m.get(column)));
    assert(justified(m.get(column), widths.get(column)) == decimal(m.get(column)));
    assert(rows_bytes(rows.drop_last(), opts, widths) =~= Seq::<u8>::empty());
    let field = decimal(m.get(column)).push(SPACE);
    let empty = Seq::<u8>::empty();
    assert(cell(m, opts, widths, column, false) == field);
    assert(field + empty =~= field);
    assert(empty + field =~= field);
    assert(empty + empty =~= empty);
    assert(row_bytes(m, opts, widths) == field + encode_utf8(m.filename) + seq![NEWLINE]);
    assert(rows_bytes(rows, opts, widths) =~= row_bytes(m, opts, widths));
    assert(render_bytes(rows, opts) =~= row_bytes(m, opts, widths));
}

} // verus!
