//! What planning reads of its surroundings, and the errors that it gives.
use polars_core::error::PolarsError;
use polars_core::using_string_cache;
use polars_expr::planner::get_expr_depth_limit;
use polars_plan::global::_set_n_rows_for_scan;
use vstd::prelude::*;
use vstd::string::*;

verus! {

/// Something in the surroundings that may change while planning goes on.
pub enum Setting<T> {
    /// It counts as this, whatever it is.
    Given(T),
    /// It is looked up at each node that depends on it.
    LookedUp,
}

/// The surroundings of one planning run.
pub struct ConversionState {
    /// How deep an expression may be before polars warns of it; zero for no limit.
    pub expr_depth: u16,
    /// The number of threads that an expression may be spread over.
    pub threads: usize,
    /// Whether the global string cache is on.
    pub string_cache: Setting<bool>,
    /// The number of rows that a fetch asks of each scan, if this is a fetch.
    pub fetch_rows: Setting<Option<usize>>,
    /// Whether a scan of several files goes to the reader for several files.
    pub multi_file: bool,
}

/// Why a plan has no executor.
pub enum PlanError {
    /// The plan holds a sink to memory.
    MemorySink,
    /// The plan holds a sink to a file of this type.
    FileSink { file_type: String },
    /// Polars cannot compile an expression of the plan.
    Expression { source: PolarsError },
    /// Polars cannot read the limit of the depth of expressions.
    DepthLimit { source: PolarsError },
}

/// `get_expr_depth_limit`, which reads the environment.
#[verifier::external_body]
fn depth_limit() -> (r: Result<u16, PolarsError>)
{
    get_expr_depth_limit()
}

/// `using_string_cache`, which reads a global count.
#[verifier::external_body]
fn string_cache_is_on() -> (r: bool)
{
    using_string_cache()
}

/// `_set_n_rows_for_scan` without a length of the caller's: what a fetch asks for on this
/// thread.
#[verifier::external_body]
fn rows_of_fetch() -> (r: Option<usize>)
{
    _set_n_rows_for_scan(None)
}

impl ConversionState {
    /// Reads the limit of the depth of expressions; the string cache and the rows of a fetch
    /// are looked up while planning goes on. The number of threads and whether several files
    /// go to one reader are given.
    pub fn new(threads: usize, multi_file: bool) -> (r: Result<Self, PlanError>)
        ensures
            r matches Ok(state) ==> state.threads == threads && state.multi_file == multi_file
                && state.string_cache is LookedUp && state.fetch_rows is LookedUp,
            r matches Err(error) ==> error is DepthLimit,
    {
        Self::from_parts(
            depth_limit(),
            threads,
            Setting::LookedUp,
            Setting::LookedUp,
            multi_file,
        )
    }

    /// Whether the global string cache is on, as given or as it is now.
    pub(crate) fn uses_string_cache(&self) -> (r: bool)
        ensures
            self.string_cache matches Setting::Given(on) ==> r == on,
    {
        match self.string_cache {
            Setting::Given(on) => on,
            Setting::LookedUp => string_cache_is_on(),
        }
    }

    /// The number of rows that a fetch asks for, as given or as it is now.
    pub(crate) fn rows_to_fetch(&self) -> (r: Option<usize>)
        ensures
            self.fetch_rows matches Setting::Given(rows) ==> r == rows,
    {
        match self.fetch_rows {
            Setting::Given(rows) => rows,
            Setting::LookedUp => rows_of_fetch(),
        }
    }

    /// The state that given surroundings make.
    pub fn from_parts(
        depth: Result<u16, PolarsError>,
        threads: usize,
        string_cache: Setting<bool>,
        fetch_rows: Setting<Option<usize>>,
        multi_file: bool,
    ) -> (r: Result<Self, PlanError>)
        ensures
            match depth {
                Ok(expr_depth) => r == Ok::<ConversionState, PlanError>(
                    (ConversionState { expr_depth, threads, string_cache, fetch_rows, multi_file }),
                ),
                Err(source) => r == Err::<ConversionState, PlanError>(
                    (PlanError::DepthLimit { source }),
                ),
            },
    {
        match depth {
            Ok(expr_depth) => Ok(
                ConversionState { expr_depth, threads, string_cache, fetch_rows, multi_file },
            ),
            Err(source) => Err(PlanError::DepthLimit { source }),
        }
    }
}

impl PlanError {
    /// The message of an error that planning itself gives; an error of polars' own has
    /// its own message.
    pub fn message(&self) -> (r: Option<String>)
        ensures
            match *self {
                PlanError::MemorySink => r matches Some(text) && text@
                    == "memory sink not supported in the standard engine"@,
                PlanError::FileSink { file_type } => r matches Some(text) && text@ == "sink_"@
                    + file_type@ + " not yet supported in standard engine. Use 'collect().write_"@
                    + file_type@ + "()'"@,
                _ => r is None,
            },
    {
        match self {
            PlanError::MemorySink => Some(
                String::from_str("memory sink not supported in the standard engine"),
            ),
            PlanError::FileSink { file_type } => {
                let mut text = String::from_str("sink_");
                text.append(file_type.as_str());
                text.append(" not yet supported in standard engine. Use 'collect().write_");
                text.append(file_type.as_str());
                text.append("()'");
                Some(text)
            },
            _ => None,
        }
    }
}

} // verus!
