//! Run-length encoding of a column.
use crate::column::{
    ascending_idx_column, broadcast, column_dtype, column_extend, column_fields, column_filter,
    column_flagged_ascending, column_head, column_len, column_name, column_null_count, column_slice,
    column_values, comparable_dtype, compares, comparison_errors, empty_idx_named, empty_like,
    field_of, fields_fit, idx_column, idx_dtype, is_known_to_compare, known_to_compare,
    not_equal_missing, row_limit, selected, sliced, struct_column, FieldView,
};
use polars_core::error::PolarsError;
use polars_core::prelude::{Column, IdxSize};
use vstd::prelude::*;

verus! {

/// A maximal stretch of equal rows.
pub struct Run {
    pub value: int,
    pub len: nat,
}

/// The runs of a sequence of rows, in order.
pub open spec fn runs(rows: Seq<int>) -> Seq<Run>
    decreases rows.len(),
{
    if rows.len() == 0 {
        Seq::empty()
    } else {
        let before = runs(rows.drop_last());
        if before.len() > 0 && before.last().value == rows.last() {
            before.update(
                before.len() - 1,
                Run { value: before.last().value, len: before.last().len + 1 },
            )
        } else {
            before.push(Run { value: rows.last(), len: 1 })
        }
    }
}

/// The lengths of runs.
pub open spec fn lengths(runs: Seq<Run>) -> Seq<int> {
    runs.map_values(|r: Run| r.len as int)
}

/// The values of runs.
pub open spec fn values(runs: Seq<Run>) -> Seq<int> {
    runs.map_values(|r: Run| r.value)
}

/// For each row but the first, whether it differs from the row before it.
pub open spec fn changes(rows: Seq<int>) -> Seq<bool> {
    Seq::new(
        if rows.len() == 0 {
            0
        } else {
            (rows.len() - 1) as nat
        },
        |i: int| rows[i] != rows[i + 1],
    )
}

/// The number of set entries.
pub open spec fn count_set(mask: Seq<bool>) -> nat
    decreases mask.len(),
{
    if mask.len() == 0 {
        0
    } else {
        count_set(mask.drop_last()) + if mask.last() {
            1nat
        } else {
            0nat
        }
    }
}

/// The run lengths that a mask of changes describes: a run starts at the first row and
/// at each change.
pub open spec fn lengths_from(mask: Seq<bool>) -> Seq<int>
    decreases mask.len(),
{
    if mask.len() == 0 {
        seq![1int]
    } else {
        let before = lengths_from(mask.drop_last());
        if mask.last() {
            before.push(1)
        } else {
            before.update(before.len() - 1, before.last() + 1)
        }
    }
}

/// The run of each row that a mask of changes describes: the number of changes up to it.
pub open spec fn ids_from(mask: Seq<bool>) -> Seq<int> {
    Seq::new(mask.len() + 1, |i: int| count_set(mask.take(i)) as int)
}

/// The run of each row: the number of rows up to it that differ from the row before.
pub open spec fn run_ids(rows: Seq<int>) -> Seq<int> {
    if rows.len() == 0 {
        Seq::empty()
    } else {
        ids_from(changes(rows))
    }
}

proof fn lemma_lengths_from_bounds(mask: Seq<bool>)
    ensures
        1 <= lengths_from(mask).len() <= mask.len() + 1,
        lengths_from(mask).len() == count_set(mask) + 1,
        forall|i: int|
            0 <= i < lengths_from(mask).len() ==> 1 <= #[trigger] lengths_from(mask)[i] <= mask.len()
                + 1,
    decreases mask.len(),
{
    if mask.len() > 0 {
        lemma_lengths_from_bounds(mask.drop_last());
    }
}

/// The run lengths that a mask of changes describes.
pub fn lengths_of_changes(mask: &Vec<bool>) -> (r: Vec<IdxSize>)
    requires
        mask@.len() + 1 < row_limit(),
    ensures
        r@.map_values(|v: IdxSize| v as int) == lengths_from(mask@),
{
    let mut lengths: Vec<IdxSize> = Vec::new();
    lengths.push(1);
    let mut idx: usize = 0;
    let mut i: usize = 0;
    assert(mask@.take(0) =~= Seq::<bool>::empty());
    assert(lengths@.map_values(|v: IdxSize| v as int) =~= lengths_from(mask@.take(0)));
    while i < mask.len()
        invariant
            i <= mask@.len(),
            mask@.len() + 1 < row_limit(),
            lengths@.len() == idx + 1,
            idx <= i,
            lengths@.map_values(|v: IdxSize| v as int) == lengths_from(mask@.take(i as int)),
        decreases mask@.len() - i,
    {
        let ghost seen = mask@.take(i as int);
        let ghost next = mask@.take(i + 1);
        let ghost before = lengths@.map_values(|v: IdxSize| v as int);
        proof {
            assert(next.drop_last() =~= seen);
            lemma_lengths_from_bounds(seen);
            assert(before[idx as int] == lengths@[idx as int]);
        }
        if mask[i] {
            idx += 1;
            lengths.push(1);
            assert(lengths@.map_values(|v: IdxSize| v as int) =~= before.push(1));
        } else {
            let len: IdxSize = lengths[idx];
            lengths.set(idx, len + 1);
            assert(lengths@.map_values(|v: IdxSize| v as int) =~= before.update(
                idx as int,
                before[idx as int] + 1,
            ));
        }
        i += 1;
    }
    assert(mask@.take(i as int) =~= mask@);
    lengths
}

/// The run of each row that a mask of changes describes.
pub fn ids_of_changes(mask: &Vec<bool>) -> (r: Vec<IdxSize>)
    requires
        mask@.len() + 1 < row_limit(),
    ensures
        r@.map_values(|v: IdxSize| v as int) == ids_from(mask@),
{
    let mut out: Vec<IdxSize> = Vec::new();
    let mut last: IdxSize = 0;
    out.push(last);
    let mut i: usize = 0;
    while i < mask.len()
        invariant
            i <= mask@.len(),
            mask@.len() + 1 < row_limit(),
            out@.len() == i + 1,
            last <= i,
            last == count_set(mask@.take(i as int)),
            forall|j: int| 0 <= j <= i ==> #[trigger] out@[j] == count_set(mask@.take(j)),
        decreases mask@.len() - i,
    {
        assert(mask@.take(i + 1).drop_last() =~= mask@.take(i as int));
        if mask[i] {
            last += 1;
        }
        out.push(last);
        i += 1;
    }
    assert(out@.map_values(|v: IdxSize| v as int) =~= ids_from(mask@));
    out
}

/// Why a column has no runs: polars cannot work on its rows.
pub struct RleError {
    pub source: PolarsError,
}

/// The fields of the run-length encoding of rows of a data type.
pub open spec fn rle_fields(rows: Seq<int>, dtype: int) -> Seq<FieldView> {
    seq![
        FieldView { name: "len"@, dtype: idx_dtype(), values: lengths(runs(rows)) },
        FieldView { name: "value"@, dtype, values: values(runs(rows)) },
    ]
}

/// Whether a column is the run-length encoding of `s`: a struct column under the name of
/// `s`, with one row for each run, none of them null.
pub open spec fn is_rle_of(column: Column, s: Column) -> bool {
    &&& column_fields(column) == rle_fields(column_values(s), column_dtype(s))
    &&& column_values(column).len() == runs(column_values(s)).len()
    &&& column_null_count(column) == 0
    &&& column_name(column) == column_name(s)
}

/// Whether an error is the one with which polars refuses to compare the rows of `s`.
pub open spec fn is_refusal_of(error: RleError, s: Column) -> bool {
    comparison_errors(column_dtype(s), column_name(s), column_name(s)).contains(error.source)
}

/// Whether a column holds the run of each row of `s`, under the name of `s`, is flagged as
/// ascending unless it is empty, and can be encoded in turn.
pub open spec fn is_rle_id_of(column: Column, s: Column) -> bool {
    &&& column_values(column) == run_ids(column_values(s))
    &&& column_name(column) == column_name(s)
    &&& column_dtype(column) == idx_dtype()
    &&& column_values(s).len() > 0 ==> column_flagged_ascending(column)
    &&& compares(column)
    &&& comparable_dtype(column_dtype(column))
}

proof fn lemma_runs_follow_changes(rows: Seq<int>)
    requires
        rows.len() > 0,
    ensures
        runs(rows).len() > 0,
        runs(rows).last().value == rows.last(),
        lengths(runs(rows)) == lengths_from(changes(rows)),
        values(runs(rows)) == seq![rows[0]] + selected(rows.skip(1), changes(rows)),
    decreases rows.len(),
{
    let short = rows.drop_last();
    if short.len() == 0 {
        assert(runs(short) =~= Seq::<Run>::empty());
        assert(lengths(runs(rows)) =~= lengths_from(changes(rows)));
        assert(values(runs(rows)) =~= seq![rows[0]] + selected(rows.skip(1), changes(rows)));
    } else {
        lemma_runs_follow_changes(short);
        assert(changes(rows).drop_last() =~= changes(short));
        assert(rows.skip(1).drop_last() =~= short.skip(1));
        assert(changes(rows).last() == (short.last() != rows.last()));
        assert(rows.skip(1).last() == rows.last());
        let before = selected(short.skip(1), changes(short));
        assert(selected(rows.skip(1), changes(rows)) == if changes(rows).last() {
            before.push(rows.last())
        } else {
            before
        });
        if changes(rows).last() {
            assert(values(runs(rows)) =~= values(runs(short)).push(rows.last()));
        } else {
            assert(values(runs(rows)) =~= values(runs(short)));
        }
        assert(short[0] == rows[0]);
        assert(lengths(runs(rows)) =~= lengths_from(changes(rows)));
        assert(values(runs(rows)) =~= seq![rows[0]] + selected(rows.skip(1), changes(rows)));
    }
}

proof fn lemma_selected_len(rows: Seq<int>, mask: Seq<bool>)
    requires
        rows.len() == mask.len(),
    ensures
        selected(rows, mask).len() == count_set(mask),
        count_set(mask) <= mask.len(),
    decreases mask.len(),
{
    if mask.len() > 0 {
        lemma_selected_len(rows.drop_last(), mask.drop_last());
    }
}

/// Whether each row but the first differs from the row before it.
fn changes_of(s: &Column) -> (r: Result<Vec<bool>, RleError>)
    requires
        column_values(*s).len() < row_limit(),
        compares(*s),
    ensures
        r is Ok <==> comparable_dtype(column_dtype(*s)),
        r matches Ok(mask) ==> mask@ == changes(column_values(*s)),
        r matches Err(error) ==> is_refusal_of(error, *s),
{
    let n: usize = column_len(s);
    let ghost rows = column_values(*s);
    let s1 = column_slice(s, 0, n.wrapping_sub(1));
    let s2 = column_slice(s, 1, n);
    proof {
        if rows.len() > 0 {
            assert(sliced(rows, 0, n - 1) =~= rows.drop_last());
            assert(sliced(rows, 1, n as int) =~= rows.skip(1));
        }
    }
    match not_equal_missing(&s1, &s2) {
        Ok(mask) => {
            assert(mask@ =~= changes(rows));
            Ok(mask)
        },
        Err(source) => Err(RleError { source }),
    }
}

/// Get the lengths of runs of identical values.
///
/// The result is a struct column under the name of `s`, with one row for each run: the
/// field `len` holds the number of rows of the run and the field `value` the value.
pub fn rle(s: &Column) -> (r: Result<Column, RleError>)
    requires
        column_values(*s).len() < row_limit(),
        compares(*s),
    ensures
        r is Ok <==> comparable_dtype(column_dtype(*s)),
        r matches Ok(column) ==> is_rle_of(column, *s),
        r matches Err(error) ==> is_refusal_of(error, *s),
{
    let ghost rows = column_values(*s);
    let mask = match changes_of(s) {
        Ok(mask) => mask,
        Err(e) => return Err(e),
    };
    let n: usize = column_len(s);
    let s2 = column_slice(s, 1, n);
    let mut vals = empty_like("value", s);
    proof {
        reveal_strlit("len");
        reveal_strlit("value");
        lemma_lengths_from_bounds(mask@);
        if rows.len() > 0 {
            lemma_runs_follow_changes(rows);
            assert(sliced(rows, 1, n as int) =~= rows.skip(1));
            assert(sliced(rows, 0, 1) =~= seq![rows[0]]);
            lemma_selected_len(rows.skip(1), mask@);
        } else {
            assert(sliced(rows, 1, n as int) =~= rows);
            assert(sliced(rows, 0, 1) =~= rows);
        }
    }
    let head = column_head(s, 1);
    if let Err(source) = column_extend(&mut vals, &head) {
        return Err(RleError { source });
    }
    let starts = match column_filter(&s2, &mask) {
        Ok(starts) => starts,
        Err(source) => return Err(RleError { source }),
    };
    if let Err(source) = column_extend(&mut vals, &starts) {
        return Err(RleError { source });
    }
    let lens = lengths_of_changes(&mask);
    let len_column = idx_column("len", lens);
    let length: usize = column_len(&vals);
    let mut outvals: Vec<Column> = Vec::new();
    outvals.push(len_column);
    outvals.push(vals);
    proof {
        assert(column_values(vals) =~= values(runs(rows)));
        assert(broadcast(column_values(len_column), length as nat) =~= lengths(runs(rows)));
        assert("len"@[0] != "value"@[0]);
        assert(fields_fit(outvals@, length as nat));
        assert(outvals@.map_values(|f: Column| field_of(f, length as nat)) =~= rle_fields(
            rows,
            column_dtype(*s),
        ));
    }
    match struct_column(s, length, &outvals) {
        Ok(column) => Ok(column),
        Err(source) => Err(RleError { source }),
    }
}

proof fn lemma_count_grows(mask: Seq<bool>, i: int, j: int)
    requires
        0 <= i <= j <= mask.len(),
    ensures
        count_set(mask.take(i)) <= count_set(mask.take(j)) <= count_set(mask.take(i)) + (j - i),
    decreases j - i,
{
    if i < j {
        lemma_count_grows(mask, i, j - 1);
        assert(mask.take(j).drop_last() =~= mask.take(j - 1));
    }
}

/// Similar to [`rle`], but maps values to run IDs.
///
/// The result holds, under the name of `s`, the number of each row's run. Run numbers
/// start at zero, and the column is flagged as ascending unless it is empty.
pub fn rle_id(s: &Column) -> (r: Result<Column, RleError>)
    requires
        column_values(*s).len() < row_limit(),
        column_values(*s).len() == 0 || compares(*s),
    ensures
        r is Ok <==> column_values(*s).len() == 0 || comparable_dtype(column_dtype(*s)),
        r matches Ok(column) ==> is_rle_id_of(column, *s),
        r matches Err(error) ==> is_refusal_of(error, *s),
{
    if column_len(s) == 0 {
        return Ok(empty_idx_named(s));
    }
    let mask = match changes_of(s) {
        Ok(mask) => mask,
        Err(e) => return Err(e),
    };
    let out = ids_of_changes(&mask);
    proof {
        let ids = out@.map_values(|v: IdxSize| v as int);
        assert(ids.len() == ids_from(mask@).len());
        assert forall|i: int, j: int| 0 <= i <= j < out@.len() implies out@[i] <= out@[j] by {
            lemma_count_grows(mask@, i, j);
            assert(ids[i] == out@[i] && ids[j] == out@[j]);
        }
    }
    Ok(ascending_idx_column(s, out))
}

/// [`rle`] of any column. Nothing is done with a column that is too long for polars, nor
/// with one of which it is not known that polars comes back from comparing its rows.
pub fn checked_rle(s: &Column) -> (r: Option<Result<Column, RleError>>)
    ensures
        r is Some <==> column_values(*s).len() < row_limit() && known_to_compare(*s),
        r matches Some(result) ==> (result is Ok <==> comparable_dtype(column_dtype(*s))),
        r matches Some(Ok(column)) ==> is_rle_of(column, *s),
        r matches Some(Err(error)) ==> is_refusal_of(error, *s),
{
    if column_len(s) < IdxSize::MAX as usize && is_known_to_compare(s) {
        Some(rle(s))
    } else {
        None
    }
}

/// [`rle_id`] of any column. Nothing is done with a column that is too long for polars, nor,
/// unless it is empty, with one of which it is not known that polars comes back from
/// comparing its rows.
pub fn checked_rle_id(s: &Column) -> (r: Option<Result<Column, RleError>>)
    ensures
        r is Some <==> column_values(*s).len() < row_limit() && (column_values(*s).len() == 0
            || known_to_compare(*s)),
        r matches Some(result) ==> (result is Ok <==> column_values(*s).len() == 0
            || comparable_dtype(column_dtype(*s))),
        r matches Some(Ok(column)) ==> is_rle_id_of(column, *s),
        r matches Some(Err(error)) ==> is_refusal_of(error, *s),
{
    let len: usize = column_len(s);
    if len < IdxSize::MAX as usize && (len == 0 || is_known_to_compare(s)) {
        Some(rle_id(s))
    } else {
        None
    }
}

} // verus!
