//! The choices that planning makes, each from plain values.
use crate::logical::ScanFormat;
use crate::state::Setting;
use vstd::prelude::*;

verus! {

/// What reads the files of a scan.
#[derive(Clone, Copy, PartialEq, Eq, Structural)]
pub enum Reader {
    /// The reader for several files of one format.
    MultiScan,
    Csv,
    Ipc,
    Parquet,
    Json,
    /// A function of the user's.
    Anonymous,
}

/// What becomes of the predicate of a Python scan.
pub enum PythonPredicate {
    /// The scan has no predicate of polars' own.
    Keep,
    /// Pyarrow filters by this expression; nothing is compiled.
    PyArrow { expression: String },
    /// The predicate is compiled.
    Compile,
    /// The predicate is handed to the reader in serialised form, and compiled for the
    /// case that the reader cannot use it.
    SerializeAndCompile,
}

/// Whether a filter may work on batches: its predicate works row by row, and batches of
/// categorical columns can be put together because one string cache serves them all.
pub open spec fn streams(elementwise: bool, categoricals: bool, string_cache: bool) -> bool {
    elementwise && (!categoricals || string_cache)
}

/// Whether a filter may have this flag for work on batches; the string cache is on or off
/// where it is looked up.
pub open spec fn may_stream(
    streamable: bool,
    elementwise: bool,
    categoricals: bool,
    string_cache: Setting<bool>,
) -> bool {
    match string_cache {
        Setting::Given(on) => streamable == streams(elementwise, categoricals, on),
        Setting::LookedUp => {
            ||| streamable == streams(elementwise, categoricals, true)
            ||| streamable == streams(elementwise, categoricals, false)
        },
    }
}

/// Whether a filter may work on batches.
pub fn filter_is_streamable(elementwise: bool, categoricals: bool, string_cache: bool) -> (r: bool)
    ensures
        r == streams(elementwise, categoricals, string_cache),
{
    elementwise && (!categoricals || string_cache)
}

/// The rows that a scan reads: the number of rows that a fetch asks for comes before the
/// length of the scan's own slice, and the offset of the slice stays.
pub open spec fn rows_to_read(
    slice: Option<(i64, usize)>,
    fetch_rows: Option<usize>,
) -> Option<(i64, usize)> {
    match (slice, fetch_rows) {
        (Some((offset, _)), Some(rows)) => Some((offset, rows)),
        (Some((offset, len)), None) => Some((offset, len)),
        (None, Some(rows)) => Some((0, rows)),
        (None, None) => None,
    }
}

/// Whether a scan may read these rows; a fetch may ask for any number of rows, or for none,
/// where that is looked up.
pub open spec fn may_read(
    rows: Option<(i64, usize)>,
    slice: Option<(i64, usize)>,
    fetch_rows: Setting<Option<usize>>,
) -> bool {
    match fetch_rows {
        Setting::Given(fetched) => rows == rows_to_read(slice, fetched),
        Setting::LookedUp => exists|fetched: Option<usize>|
            rows == #[trigger] rows_to_read(slice, fetched),
    }
}

/// The rows that a scan reads.
pub fn scan_slice(slice: Option<(i64, usize)>, fetch_rows: Option<usize>) -> (r: Option<
    (i64, usize),
>)
    ensures
        r == rows_to_read(slice, fetch_rows),
{
    match slice {
        Some((offset, len)) => match fetch_rows {
            Some(rows) => Some((offset, rows)),
            None => Some((offset, len)),
        },
        None => match fetch_rows {
            Some(rows) => Some((0, rows)),
            None => None,
        },
    }
}

/// The reader of a scan: that of its format, unless several files are to be read at once.
pub open spec fn reader_of(format: ScanFormat, sources: usize, multi_file: bool) -> Reader {
    match format {
        ScanFormat::Anonymous => Reader::Anonymous,
        _ if sources > 1 && multi_file => Reader::MultiScan,
        ScanFormat::Csv => Reader::Csv,
        ScanFormat::Ipc => Reader::Ipc,
        ScanFormat::Parquet => Reader::Parquet,
        ScanFormat::NdJson => Reader::Json,
    }
}

/// The reader of a scan.
pub fn scan_reader(format: ScanFormat, sources: usize, multi_file: bool) -> (r: Reader)
    ensures
        r == reader_of(format, sources, multi_file),
{
    if sources > 1 && multi_file && format != ScanFormat::Anonymous {
        return Reader::MultiScan;
    }
    match format {
        ScanFormat::Csv => Reader::Csv,
        ScanFormat::Ipc => Reader::Ipc,
        ScanFormat::Parquet => Reader::Parquet,
        ScanFormat::NdJson => Reader::Json,
        ScanFormat::Anonymous => Reader::Anonymous,
    }
}

/// Whether the two sides of a join run in parallel: always where that is forced, and
/// where it is allowed if the sides read no file in common.
pub open spec fn in_parallel(force: bool, allow: bool, shares_source: bool) -> bool {
    force || (allow && !shares_source)
}

/// What becomes of the predicate of a Python scan, from what pyarrow makes of it. Planning
/// has no Python scans until polars is built with them.
pub fn python_predicate(has_predicate: bool, pyarrow: bool, converted: Option<String>) -> (r:
    PythonPredicate)
    ensures
        !has_predicate ==> r is Keep,
        has_predicate && !pyarrow ==> r is SerializeAndCompile,
        has_predicate && pyarrow ==> match converted {
            Some(expression) => r == (PythonPredicate::PyArrow { expression }),
            None => r is Compile,
        },
{
    if !has_predicate {
        return PythonPredicate::Keep;
    }
    if !pyarrow {
        return PythonPredicate::SerializeAndCompile;
    }
    match converted {
        Some(expression) => PythonPredicate::PyArrow { expression },
        None => PythonPredicate::Compile,
    }
}

} // verus!
