//! What holds of run-length encoding as a whole.
use crate::column::{
    column_dtype, column_fields, column_flagged_ascending, column_name, column_null_count,
    column_values, comparable_dtype, compares, comparison_errors, idx_dtype,
};
use crate::rle::{
    changes, ids_from, is_refusal_of, is_rle_id_of, is_rle_of, lengths, lengths_from, run_ids, runs,
    values, RleError, Run,
};
use polars_core::prelude::Column;
use vstd::prelude::*;

verus! {

/// The rows that run lengths and run values stand for.
pub open spec fn expand(lens: Seq<int>, vals: Seq<int>) -> Seq<int>
    decreases lens.len(),
{
    if lens.len() == 0 || lens.len() != vals.len() {
        Seq::empty()
    } else {
        expand(lens.drop_last(), vals.drop_last()) + Seq::new(
            lens.last() as nat,
            |i: int| vals.last(),
        )
    }
}

/// The sum of run lengths.
pub open spec fn total(lens: Seq<int>) -> int
    decreases lens.len(),
{
    if lens.len() == 0 {
        0
    } else {
        total(lens.drop_last()) + lens.last()
    }
}

/// Runs as an encoder may give them: none is empty, and neighbours differ.
pub open spec fn canonical(r: Seq<Run>) -> bool {
    &&& forall|i: int| 0 <= i < r.len() ==> #[trigger] r[i].len >= 1
    &&& forall|i: int, j: int|
        #![trigger r[i], r[j]]
        0 <= i && j == i + 1 && j < r.len() ==> r[i].value != r[j].value
}

/// The number of entries that equal `k`.
pub open spec fn occurrences(ids: Seq<int>, k: int) -> nat
    decreases ids.len(),
{
    if ids.len() == 0 {
        0
    } else {
        occurrences(ids.drop_last(), k) + if ids.last() == k {
            1nat
        } else {
            0nat
        }
    }
}

/// Decoding undoes encoding: the runs of a column expand to its rows.
pub proof fn law_runs_expand_to_rows(rows: Seq<int>)
    ensures
        expand(lengths(runs(rows)), values(runs(rows))) == rows,
    decreases rows.len(),
{
    if rows.len() > 0 {
        let short = rows.drop_last();
        law_runs_expand_to_rows(short);
        let before = runs(short);
        let after = runs(rows);
        let lens = lengths(after);
        let vals = values(after);
        if before.len() > 0 && before.last().value == rows.last() {
            assert(lens.drop_last() =~= lengths(before).drop_last());
            assert(vals.drop_last() =~= values(before).drop_last());
            let front = expand(lens.drop_last(), vals.drop_last());
            let last = before.last();
            assert(lengths(before).last() == last.len && values(before).last() == last.value);
            assert(short =~= front + Seq::new(last.len, |i: int| last.value));
            assert(lens.last() == last.len + 1 && vals.last() == rows.last());
            assert(short.push(rows.last()) =~= front + Seq::new(
                lens.last() as nat,
                |i: int| vals.last(),
            ));
        } else {
            assert(lens.drop_last() =~= lengths(before));
            assert(vals.drop_last() =~= values(before));
            assert(lens.last() == 1 && vals.last() == rows.last());
            assert(short.push(rows.last()) =~= short + Seq::new(
                lens.last() as nat,
                |i: int| vals.last(),
            ));
        }
        assert(rows =~= short.push(rows.last()));
    }
}

/// Runs are maximal: none is empty, and neighbouring runs hold different values.
pub proof fn law_runs_are_maximal(rows: Seq<int>)
    ensures
        canonical(runs(rows)),
        rows.len() > 0 ==> runs(rows).len() > 0 && runs(rows).last().value == rows.last(),
    decreases rows.len(),
{
    if rows.len() > 0 {
        law_runs_are_maximal(rows.drop_last());
    }
}

/// The run lengths add up to the number of rows.
pub proof fn law_lengths_add_up(rows: Seq<int>)
    ensures
        total(lengths(runs(rows))) == rows.len(),
    decreases rows.len(),
{
    if rows.len() > 0 {
        let short = rows.drop_last();
        law_lengths_add_up(short);
        let before = runs(short);
        let lens = lengths(runs(rows));
        if before.len() > 0 && before.last().value == rows.last() {
            assert(lens.drop_last() =~= lengths(before).drop_last());
        } else {
            assert(lens.drop_last() =~= lengths(before));
        }
    }
}

/// Appending a stretch of one value to rows that do not end in it appends one run.
proof fn lemma_runs_of_stretch(rows: Seq<int>, value: int, len: nat)
    requires
        len >= 1,
        rows.len() > 0 ==> rows.last() != value,
    ensures
        runs(rows + Seq::new(len, |i: int| value)) == runs(rows).push(Run { value, len }),
    decreases len,
{
    let all = rows + Seq::new(len, |i: int| value);
    law_runs_are_maximal(rows);
    if len == 1 {
        assert(all.drop_last() =~= rows);
    } else {
        let fewer = (len - 1) as nat;
        lemma_runs_of_stretch(rows, value, fewer);
        assert(all.drop_last() =~= rows + Seq::new(fewer, |i: int| value));
        assert(runs(all) =~= runs(rows).push(Run { value, len }));
    }
}

/// Encoding undoes decoding: canonical runs are the runs of the rows they expand to. So
/// a column has one canonical encoding only, and [`crate::rle::rle`] gives it.
pub proof fn law_canonical_runs_are_the_runs(r: Seq<Run>)
    requires
        canonical(r),
    ensures
        runs(expand(lengths(r), values(r))) == r,
    decreases r.len(),
{
    if r.len() == 0 {
        assert(r =~= Seq::<Run>::empty());
    } else {
        let short = r.drop_last();
        assert(canonical(short)) by {
            assert forall|i: int| 0 <= i < short.len() implies #[trigger] short[i].len >= 1 by {
                assert(r[i].len >= 1);
            }
            assert forall|i: int, j: int|
                #![trigger short[i], short[j]]
                0 <= i && j == i + 1 && j < short.len() implies short[i].value != short[j].value by {
                assert(r[i].value != r[j].value);
            }
        }
        law_canonical_runs_are_the_runs(short);
        assert(lengths(r).drop_last() =~= lengths(short));
        assert(values(r).drop_last() =~= values(short));
        let rows = expand(lengths(short), values(short));
        let last = r.last();
        law_runs_are_maximal(rows);
        if rows.len() > 0 {
            assert(short.last() == r[r.len() - 2]);
            assert(r[r.len() - 2].value != r[r.len() - 1].value);
        } else {
            assert(runs(rows) =~= Seq::<Run>::empty());
        }
        assert(last.len >= 1);
        lemma_runs_of_stretch(rows, last.value, last.len);
        assert(expand(lengths(r), values(r)) =~= rows + Seq::new(last.len, |i: int| last.value));
        assert(r =~= short.push(last));
    }
}

proof fn lemma_ids_of_longer(rows: Seq<int>)
    requires
        rows.len() >= 2,
    ensures
        run_ids(rows).len() == rows.len(),
        run_ids(rows).drop_last() == run_ids(rows.drop_last()),
        run_ids(rows).last() == run_ids(rows.drop_last()).last() + if rows[rows.len() - 2]
            != rows.last() {
            1int
        } else {
            0int
        },
{
    let mask = changes(rows);
    let short = rows.drop_last();
    assert(mask.drop_last() =~= changes(short));
    assert(run_ids(rows).drop_last() =~= run_ids(short)) by {
        assert forall|i: int| 0 <= i < short.len() implies run_ids(rows)[i] == run_ids(short)[i] by {
            assert(mask.take(i) =~= changes(short).take(i));
        }
    }
    assert(mask.take(mask.len() as int) =~= mask);
    assert(changes(short).take(changes(short).len() as int) =~= changes(short));
}

/// Run numbers start at zero and grow by one exactly at the rows that differ from the
/// row before them.
pub proof fn law_ids_count_changes(rows: Seq<int>)
    ensures
        run_ids(rows).len() == rows.len(),
        rows.len() > 0 ==> run_ids(rows)[0] == 0,
        forall|i: int, j: int|
            #![trigger run_ids(rows)[i], run_ids(rows)[j]]
            0 <= i && j == i + 1 && j < rows.len() ==> run_ids(rows)[j] == run_ids(rows)[i] + if rows[i]
                != rows[j] {
                1int
            } else {
                0int
            },
{
    let mask = changes(rows);
    if rows.len() > 0 {
        assert(mask.take(0) =~= Seq::<bool>::empty());
        assert forall|i: int, j: int|
            #![trigger run_ids(rows)[i], run_ids(rows)[j]]
            0 <= i && j == i + 1 && j < rows.len() implies run_ids(rows)[j] == run_ids(rows)[i]
            + if rows[i] != rows[j] {
            1int
        } else {
            0int
        } by {
            assert(mask.take(j).drop_last() =~= mask.take(i));
        }
    }
}

/// The run numbers of run numbers are the run numbers: numbering runs twice changes
/// nothing.
pub proof fn law_ids_of_ids_are_the_ids(rows: Seq<int>)
    ensures
        run_ids(run_ids(rows)) == run_ids(rows),
{
    let ids = run_ids(rows);
    law_ids_count_changes(rows);
    assert(changes(ids) =~= changes(rows)) by {
        assert forall|i: int| 0 <= i < rows.len() - 1 implies (#[trigger] changes(ids)[i])
            == changes(rows)[i] by {
            assert(ids[i + 1] == ids[i] + if rows[i] != rows[i + 1] {
                1int
            } else {
                0int
            });
        }
    }
    assert(run_ids(ids) =~= ids);
}

/// A column of run numbers can be encoded in turn, and its own run numbers are a column of
/// the same name, data type and rows.
pub proof fn law_encoding_ids_again_changes_nothing(s: Column, ids: Column, again: Column)
    requires
        is_rle_id_of(ids, s),
        is_rle_id_of(again, ids),
    ensures
        compares(ids),
        comparable_dtype(column_dtype(ids)),
        column_values(ids).len() == column_values(s).len(),
        column_values(again) == column_values(ids),
        column_name(again) == column_name(ids),
        column_dtype(again) == column_dtype(ids),
{
    law_ids_count_changes(column_values(s));
    law_ids_of_ids_are_the_ids(column_values(s));
}

/// Run numbers ascend.
pub proof fn law_ids_ascend(rows: Seq<int>, i: int, j: int)
    requires
        0 <= i <= j < rows.len(),
    ensures
        run_ids(rows)[i] <= run_ids(rows)[j],
    decreases j - i,
{
    if i < j {
        law_ids_ascend(rows, i, j - 1);
        law_ids_count_changes(rows);
        assert(run_ids(rows)[j - 1] <= run_ids(rows)[j]);
    }
}

/// Two rows share a run number exactly where no row between them differs from the row
/// before it.
pub proof fn law_same_id_iff_no_change(rows: Seq<int>, i: int, j: int)
    requires
        0 <= i <= j < rows.len(),
    ensures
        run_ids(rows)[i] == run_ids(rows)[j] <==> forall|k: int|
            i <= k < j ==> !(#[trigger] changes(rows)[k]),
    decreases j - i,
{
    if i < j {
        let m = j - 1;
        law_same_id_iff_no_change(rows, i, m);
        law_ids_count_changes(rows);
        law_ids_ascend(rows, i, m);
        assert(run_ids(rows)[j] == run_ids(rows)[m] + if rows[m] != rows[j] {
            1int
        } else {
            0int
        });
        assert(changes(rows)[m] == (rows[m] != rows[j]));
    }
}

/// The encodings agree: the number of a row's run is the index at which
/// [`crate::rle::rle`] puts that run, whose value is the value of the row; and the last
/// row is in the last run.
pub proof fn law_ids_index_the_runs(rows: Seq<int>)
    ensures
        run_ids(rows).len() == rows.len(),
        rows.len() > 0 ==> run_ids(rows).last() == runs(rows).len() - 1,
        forall|i: int|
            0 <= i < rows.len() ==> 0 <= #[trigger] run_ids(rows)[i] < runs(rows).len() && values(
                runs(rows),
            )[run_ids(rows)[i]] == rows[i],
    decreases rows.len(),
{
    if rows.len() == 1 {
        assert(rows.drop_last() =~= Seq::<int>::empty());
        assert(runs(rows.drop_last()) =~= Seq::<Run>::empty());
        assert(changes(rows).take(0) =~= Seq::<bool>::empty());
    } else if rows.len() > 1 {
        let short = rows.drop_last();
        law_ids_index_the_runs(short);
        lemma_ids_of_longer(rows);
        law_runs_are_maximal(short);
        law_runs_are_maximal(rows);
        assert(short.last() == rows[rows.len() - 2]);
        assert forall|i: int| 0 <= i < rows.len() implies 0 <= #[trigger] run_ids(rows)[i] < runs(
            rows,
        ).len() && values(runs(rows))[run_ids(rows)[i]] == rows[i] by {
            if i < short.len() {
                assert(run_ids(rows)[i] == run_ids(rows).drop_last()[i]);
                assert(run_ids(short)[i] == run_ids(rows)[i]);
                assert(values(runs(rows))[run_ids(rows)[i]] == values(runs(short))[run_ids(rows)[i]]);
            }
        }
    }
}

/// The number of rows that carry a run number is the length of that run.
pub proof fn law_ids_count_the_lengths(rows: Seq<int>, k: int)
    requires
        0 <= k < runs(rows).len(),
    ensures
        occurrences(run_ids(rows), k) == runs(rows)[k].len,
    decreases rows.len(),
{
    law_ids_index_the_runs(rows);
    let ids = run_ids(rows);
    if rows.len() == 1 {
        assert(rows.drop_last() =~= Seq::<int>::empty());
        assert(runs(rows.drop_last()) =~= Seq::<Run>::empty());
        assert(ids.drop_last() =~= Seq::<int>::empty());
        assert(occurrences(ids.drop_last(), k) == 0);
    } else if rows.len() > 1 {
        let short = rows.drop_last();
        lemma_ids_of_longer(rows);
        law_ids_index_the_runs(short);
        law_runs_are_maximal(short);
        assert(short.last() == rows[rows.len() - 2]);
        if k < runs(short).len() {
            law_ids_count_the_lengths(short, k);
        } else {
            lemma_absent(run_ids(short), k);
        }
    }
}

proof fn lemma_absent(ids: Seq<int>, k: int)
    requires
        forall|i: int| 0 <= i < ids.len() ==> #[trigger] ids[i] != k,
    ensures
        occurrences(ids, k) == 0,
    decreases ids.len(),
{
    if ids.len() > 0 {
        assert(ids.last() == ids[ids.len() - 1]);
        assert forall|i: int| 0 <= i < ids.drop_last().len() implies #[trigger] ids.drop_last()[i]
            != k by {
            assert(ids[i] != k);
        }
        lemma_absent(ids.drop_last(), k);
    }
}

/// Where the runs of rows start, and where the last one ends.
spec fn run_starts(rows: Seq<int>) -> Seq<int>
    decreases rows.len(),
{
    if rows.len() == 0 {
        seq![0int]
    } else {
        let before = run_starts(rows.drop_last());
        if rows.len() > 1 && rows[rows.len() - 2] == rows.last() {
            before.update(before.len() - 1, rows.len() as int)
        } else {
            before.push(rows.len() as int)
        }
    }
}

proof fn lemma_run_starts(rows: Seq<int>)
    ensures
        run_starts(rows).len() == runs(rows).len() + 1,
        run_starts(rows)[0] == 0,
        run_starts(rows).last() == rows.len(),
        rows.len() > 0 ==> runs(rows).len() > 0 && runs(rows).last().value == rows.last(),
        forall|k: int|
            #![trigger runs(rows)[k]]
            0 <= k < runs(rows).len() ==> run_starts(rows)[k + 1] == run_starts(rows)[k]
                + runs(rows)[k].len && runs(rows)[k].len >= 1,
        forall|k: int, i: int|
            #![trigger runs(rows)[k], rows[i]]
            0 <= k < runs(rows).len() && run_starts(rows)[k] <= i < run_starts(rows)[k + 1]
                ==> rows[i] == runs(rows)[k].value,
        forall|k: int| 0 <= k < run_starts(rows).len() ==> 0 <= #[trigger] run_starts(rows)[k]
            <= rows.len(),
    decreases rows.len(),
{
    if rows.len() > 0 {
        let short = rows.drop_last();
        lemma_run_starts(short);
        let before = runs(short);
        let starts = run_starts(short);
        let same = before.len() > 0 && before.last().value == rows.last();
        assert(same <==> rows.len() > 1 && rows[rows.len() - 2] == rows.last());
        assert forall|k: int|
            #![trigger runs(rows)[k]]
            0 <= k < runs(rows).len() implies run_starts(rows)[k + 1] == run_starts(rows)[k]
            + runs(rows)[k].len && runs(rows)[k].len >= 1 by {
            if k < before.len() {
                let _ = before[k];
            }
        }
        assert forall|k: int, i: int|
            #![trigger runs(rows)[k], rows[i]]
            0 <= k < runs(rows).len() && run_starts(rows)[k] <= i < run_starts(rows)[k
                + 1] implies rows[i] == runs(rows)[k].value by {
            if k < before.len() {
                let _ = before[k];
                assert(0 <= starts[k] <= short.len());
                assert(0 <= starts[k + 1] <= short.len());
                if i < short.len() {
                    assert(short[i] == rows[i]);
                }
            }
        }
        assert forall|k: int| 0 <= k < run_starts(rows).len() implies 0
            <= #[trigger] run_starts(rows)[k] <= rows.len() by {
            if k < starts.len() {
                let _ = starts[k];
            }
        }
    }
}

/// The encoding of a column, row by row. It has a field of lengths and a field of values,
/// as many of the one as of the other. The runs lie one behind the other from the first row
/// to the last: every length is at least one, every row of a run has the run's value, and
/// two runs beside each other have different values.
pub proof fn law_encoded_columns(s: Column, column: Column)
    requires
        is_rle_of(column, s),
    ensures
        column_name(column) == column_name(s),
        column_null_count(column) == 0,
        column_fields(column).len() == 2,
        column_fields(column)[0].name == "len"@,
        column_fields(column)[1].name == "value"@,
        column_fields(column)[0].dtype == idx_dtype(),
        column_fields(column)[1].dtype == column_dtype(s),
        column_fields(column)[0].values.len() == column_values(column).len(),
        column_fields(column)[1].values.len() == column_values(column).len(),
        ({
            let rows = column_values(s);
            let lens = column_fields(column)[0].values;
            let vals = column_fields(column)[1].values;
            exists|starts: Seq<int>|
                {
                    &&& #[trigger] starts.len() == lens.len() + 1
                    &&& starts[0] == 0
                    &&& starts[lens.len() as int] == rows.len()
                    &&& forall|k: int|
                        #![trigger lens[k]]
                        0 <= k < lens.len() ==> starts[k + 1] == starts[k] + lens[k] && lens[k] >= 1
                    &&& forall|k: int, i: int|
                        #![trigger vals[k], rows[i]]
                        0 <= k < lens.len() && starts[k] <= i < starts[k + 1] ==> rows[i] == vals[k]
                }
        }),
        forall|k: int, l: int|
            #![trigger column_fields(column)[1].values[k], column_fields(column)[1].values[l]]
            0 <= k && l == k + 1 && l < column_values(column).len()
                ==> column_fields(column)[1].values[k] != column_fields(column)[1].values[l],
{
    let rows = column_values(s);
    let lens = column_fields(column)[0].values;
    let vals = column_fields(column)[1].values;
    let starts = run_starts(rows);
    lemma_run_starts(rows);
    law_runs_are_maximal(rows);
    assert(lens == lengths(runs(rows)) && vals == values(runs(rows)));
    assert forall|k: int| #![trigger lens[k]] 0 <= k < lens.len() implies starts[k + 1] == starts[k]
        + lens[k] && lens[k] >= 1 by {
        let _ = runs(rows)[k];
    }
    assert forall|k: int, i: int|
        #![trigger vals[k], rows[i]]
        0 <= k < lens.len() && starts[k] <= i < starts[k + 1] implies rows[i] == vals[k] by {
        let _ = runs(rows)[k];
    }
    assert(starts.len() == lens.len() + 1);
    assert forall|k: int, l: int|
        #![trigger vals[k], vals[l]]
        0 <= k && l == k + 1 && l < vals.len() implies vals[k] != vals[l] by {
        assert(runs(rows)[k].value != runs(rows)[l].value);
    }
}

/// The run numbers of a column, row by row: one for each row, the first one zero, and each
/// later one greater by one than the number before it exactly where the row differs from the
/// row before it, and otherwise the same.
pub proof fn law_numbered_columns(s: Column, column: Column)
    requires
        is_rle_id_of(column, s),
    ensures
        column_name(column) == column_name(s),
        column_dtype(column) == idx_dtype(),
        column_values(column).len() == column_values(s).len(),
        column_values(s).len() > 0 ==> column_values(column)[0] == 0 && column_flagged_ascending(
            column,
        ),
        forall|i: int, j: int|
            #![trigger column_values(column)[i], column_values(column)[j]]
            0 <= i && j == i + 1 && j < column_values(s).len() ==> column_values(column)[j]
                == column_values(column)[i] + if column_values(s)[i] == column_values(s)[j] {
                0int
            } else {
                1int
            },
{
    law_ids_count_changes(column_values(s));
}

/// The error of a column that has no runs is one with which polars refuses to compare the
/// column with itself.
pub proof fn law_refusals_are_polars_own(s: Column, error: RleError)
    requires
        is_refusal_of(error, s),
    ensures
        comparison_errors(column_dtype(s), column_name(s), column_name(s)).contains(error.source),
{
}

/// The lengths that a mask of changes describes lie one behind the other, from the first row
/// to the last of one row more than the mask has entries, and a run starts exactly at the
/// first row and behind each set entry.
pub proof fn law_lengths_of_masks(mask: Seq<bool>)
    ensures
        exists|starts: Seq<int>|
            {
                &&& #[trigger] starts.len() == lengths_from(mask).len() + 1
                &&& starts[0] == 0
                &&& starts[lengths_from(mask).len() as int] == mask.len() + 1
                &&& forall|k: int|
                    #![trigger lengths_from(mask)[k]]
                    0 <= k < lengths_from(mask).len() ==> starts[k + 1] == starts[k]
                        + lengths_from(mask)[k] && lengths_from(mask)[k] >= 1
                &&& forall|i: int|
                    #![trigger mask[i]]
                    0 <= i < mask.len() ==> (mask[i] <==> exists|k: int|
                        0 < k < lengths_from(mask).len() && #[trigger] starts[k] == i + 1)
            },
    decreases mask.len(),
{
    if mask.len() == 0 {
        let starts = seq![0int, 1int];
        assert(starts.len() == lengths_from(mask).len() + 1);
        assert(starts[1] == starts[0] + lengths_from(mask)[0]);
    } else {
        let short = mask.drop_last();
        law_lengths_of_masks(short);
        let lens = lengths_from(short);
        let all = lengths_from(mask);
        let before = choose|starts: Seq<int>|
            {
                &&& #[trigger] starts.len() == lens.len() + 1
                &&& starts[0] == 0
                &&& starts[lens.len() as int] == short.len() + 1
                &&& forall|k: int|
                    #![trigger lens[k]]
                    0 <= k < lens.len() ==> starts[k + 1] == starts[k] + lens[k] && lens[k] >= 1
                &&& forall|i: int|
                    #![trigger short[i]]
                    0 <= i < short.len() ==> (short[i] <==> exists|k: int|
                        0 < k < lens.len() && #[trigger] starts[k] == i + 1)
            };
        let count = lens.len() as int;
        let starts = if mask.last() {
            before.push(mask.len() as int + 1)
        } else {
            before.update(count, mask.len() as int + 1)
        };
        assert(count >= 1) by {
            if count == 0 {
                assert(before[0] == 0);
            }
        }
        assert forall|k: int| #![trigger all[k]] 0 <= k < all.len() implies starts[k + 1]
            == starts[k] + all[k] && all[k] >= 1 by {
            if k < count {
                let _ = lens[k];
            }
        }
        assert forall|k: int| 0 < k < count implies #[trigger] starts[k] == before[k] && before[k]
            < short.len() + 1 by {
            lemma_starts_climb(before, lens, k, count);
        }
        assert forall|i: int| #![trigger mask[i]] 0 <= i < mask.len() implies (mask[i]
            <==> exists|k: int| 0 < k < all.len() && #[trigger] starts[k] == i + 1) by {
            if i < short.len() {
                assert(short[i] == mask[i]);
                if mask[i] {
                    let k = choose|k: int| 0 < k < lens.len() && #[trigger] before[k] == i + 1;
                    assert(starts[k] == i + 1);
                }
                if exists|k: int| 0 < k < all.len() && #[trigger] starts[k] == i + 1 {
                    let k = choose|k: int| 0 < k < all.len() && #[trigger] starts[k] == i + 1;
                    assert(k < count ==> before[k] == i + 1);
                }
            } else if mask[i] {
                assert(starts[count] == i + 1);
            }
        }
        assert(starts.len() == all.len() + 1);
    }
}

proof fn lemma_starts_climb(starts: Seq<int>, lens: Seq<int>, k: int, to: int)
    requires
        0 <= k < to <= lens.len(),
        starts.len() == lens.len() + 1,
        forall|k: int|
            #![trigger lens[k]]
            0 <= k < lens.len() ==> starts[k + 1] == starts[k] + lens[k] && lens[k] >= 1,
    ensures
        starts[k] < starts[to],
    decreases to - k,
{
    let _ = lens[to - 1];
    if k < to - 1 {
        lemma_starts_climb(starts, lens, k, to - 1);
    }
}

/// The run numbers that a mask of changes describes: one more than the mask has entries, the
/// first one zero, and each later one greater by one than the number before it exactly where
/// the entry between them is set.
pub proof fn law_numbers_of_masks(mask: Seq<bool>)
    ensures
        ids_from(mask).len() == mask.len() + 1,
        ids_from(mask)[0] == 0,
        forall|i: int, j: int|
            #![trigger ids_from(mask)[i], ids_from(mask)[j]]
            0 <= i && j == i + 1 && i < mask.len() ==> ids_from(mask)[j] == ids_from(mask)[i]
                + if mask[i] {
                1int
            } else {
                0int
            },
{
    assert(mask.take(0) =~= Seq::<bool>::empty());
    assert forall|i: int, j: int|
        #![trigger ids_from(mask)[i], ids_from(mask)[j]]
        0 <= i && j == i + 1 && i < mask.len() implies ids_from(mask)[j] == ids_from(mask)[i]
        + if mask[i] {
        1int
    } else {
        0int
    } by {
        assert(mask.take(j).drop_last() =~= mask.take(i));
    }
}

} // verus!
