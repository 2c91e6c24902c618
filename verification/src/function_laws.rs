//! What the functions of the library return, said of what they are given.
use crate::check_laws::{
    law_columns_ask_for_threads, law_vouched_plans_are_settled, node_settled, settled,
};
use crate::checks::{plan_asks_for_threads, plan_is_tree, plan_is_vouched};
use crate::column::{
    column_dtype, column_fields, column_flagged_ascending, column_name, column_null_count,
    column_type, column_values, comparable_dtype, comparison_errors, dtype_inner, dtype_kind,
    idx_dtype, is_known_to_compare, known_to_compare, plain_rows, repeated_type, series_column,
    TypeKind,
};
use crate::column_laws::{law_known_repetitions, law_known_series};
use crate::decisions::{
    filter_is_streamable, python_predicate, scan_reader, scan_slice, PythonPredicate, Reader,
};
use crate::expression::{
    are_elementwise, are_literal, are_shallow, elementwise_exprs, expr_edges, expr_form, expr_node,
    expr_nodes, is_categorical, is_literal_expr, pre_agg_answer, schema_dtypes,
    schema_has_categoricals, standing, stands, to_exprs,
};
use crate::expression_laws::law_shallow_expressions;
use crate::graph::{edge_view, ground, grounded};
use crate::graph_laws::{law_grounded_places_have_no_cycles, law_grounded_through_inputs, linked};
use crate::logical::{arena_irs, has_node, ir_kind, is_plan, is_tree, root_plan, ScanFormat};
use crate::node_laws::law_partitions;
use crate::order::order;
use crate::plan_laws::law_distinct_plans;
use crate::planner::partitionable_gb;
use crate::rle::{
    checked_rle, checked_rle_id, ids_of_changes, is_rle_of, lengths_of_changes, rle, rle_id, runs,
    RleError,
};
use crate::rle_laws::{
    expand, law_encoded_columns, law_lengths_of_masks, law_numbered_columns, law_numbers_of_masks,
    law_runs_are_maximal, law_runs_expand_to_rows,
};
use crate::state::{ConversionState, PlanError, Setting};
use polars_core::error::PolarsError;
use polars_core::prelude::{Column, DataType, IdxSize};
use polars_expr::prelude::PhysicalIoHelper;
use polars_plan::prelude::expr_ir::ExprIR;
use polars_plan::prelude::{AExpr, Arena, Expr, IR};
use polars_schema::Schema;
use std::sync::Arc;
use vstd::prelude::*;

verus! {

/// Expressions work row by row exactly where each of them does, from the first to the last.
pub proof fn law_are_elementwise(exprs: &Vec<ExprIR>, arena: &Arena<AExpr>, r: bool)
    requires
        call_ensures(are_elementwise, (exprs, arena), r),
    ensures
        r <==> forall|i: int|
            #![trigger exprs@[i]]
            0 <= i < exprs@.len() ==> elementwise_exprs(*arena).contains(expr_node(exprs@[i])),
{
}

/// Compiled expressions are literals exactly where each of them is, from the first to the
/// last.
pub proof fn law_are_literal(exprs: &Vec<PhysicalIoHelper>, r: bool)
    requires
        call_ensures(are_literal, (exprs,), r),
    ensures
        r <==> forall|i: int| 0 <= i < exprs@.len() ==> #[trigger] is_literal_expr(exprs@[i]),
{
}

/// A schema has a categorical type exactly where one of its data types is one, from the first
/// to the last.
pub proof fn law_schema_has_categoricals(schema: &Arc<Schema<DataType>>, r: bool)
    requires
        call_ensures(schema_has_categoricals, (schema,), r),
    ensures
        r <==> exists|i: int|
            0 <= i < schema_dtypes(**schema).len() && #[trigger] is_categorical(
                schema_dtypes(**schema)[i],
            ),
{
}

/// A filter may work on batches only where its predicate works row by row; and then exactly
/// where there are no categorical columns or the string cache is on.
pub proof fn law_filter_is_streamable(
    elementwise: bool,
    categoricals: bool,
    string_cache: bool,
    r: bool,
)
    requires
        call_ensures(filter_is_streamable, (elementwise, categoricals, string_cache), r),
    ensures
        !elementwise ==> !r,
        elementwise && !categoricals ==> r,
        elementwise && string_cache ==> r,
        categoricals && !string_cache ==> !r,
{
}

/// A scan reads what its slice says, offset and length, unless a fetch asks for rows. With a
/// fetch it reads so many rows, from the offset of its slice, or from the first row.
pub proof fn law_scan_slice(
    slice: Option<(i64, usize)>,
    fetch_rows: Option<usize>,
    r: Option<(i64, usize)>,
)
    requires
        call_ensures(scan_slice, (slice, fetch_rows), r),
    ensures
        fetch_rows is None ==> r == slice,
        fetch_rows matches Some(rows) ==> r is Some && r.unwrap().1 == rows && r.unwrap().0
            == match slice {
            Some((offset, _)) => offset as int,
            None => 0,
        },
{
}

/// Each format has a reader of its own. Several files, unless they are for a function of the
/// user's, go to the reader for several files where that is on.
pub proof fn law_scan_reader(format: ScanFormat, sources: usize, multi_file: bool, r: Reader)
    requires
        call_ensures(scan_reader, (format, sources, multi_file), r),
    ensures
        r == Reader::Anonymous <==> format == ScanFormat::Anonymous,
        r == Reader::MultiScan <==> multi_file && sources >= 2 && format != ScanFormat::Anonymous,
        r == Reader::Csv ==> format == ScanFormat::Csv,
        r == Reader::Ipc ==> format == ScanFormat::Ipc,
        r == Reader::Parquet ==> format == ScanFormat::Parquet,
        r == Reader::Json ==> format == ScanFormat::NdJson,
{
}

/// The predicate of a Python scan is kept where there is none, handed on and compiled where
/// pyarrow does not filter, given to pyarrow as it was converted, and compiled where it could
/// not be.
pub proof fn law_python_predicate(
    has_predicate: bool,
    pyarrow: bool,
    converted: Option<String>,
    r: PythonPredicate,
)
    requires
        call_ensures(python_predicate, (has_predicate, pyarrow, converted), r),
    ensures
        r is Keep <==> !has_predicate,
        r is SerializeAndCompile <==> has_predicate && !pyarrow,
        r is Compile <==> has_predicate && pyarrow && converted is None,
        r matches PythonPredicate::PyArrow { expression } ==> converted == Some(expression),
{
}

/// Expressions come back as the user wrote them, one for one and in order.
pub proof fn law_to_exprs(exprs: &Vec<ExprIR>, arena: &Arena<AExpr>, r: Vec<Expr>)
    requires
        call_ensures(to_exprs, (exprs, arena), r),
    ensures
        r@.len() == exprs@.len(),
        forall|i: int|
            #![trigger r@[i]]
            0 <= i < r@.len() ==> r@[i] == expr_form(exprs@[i], *arena),
{
}

/// A group-by can work on partitions exactly where it has one key or two, each of them a node
/// without any input and no literal series, no function of the user's works on the groups, and
/// polars can split the aggregations.
pub proof fn law_partitionable_gb(
    keys: &Vec<ExprIR>,
    aggs: &Vec<ExprIR>,
    input_schema: &Arc<Schema<DataType>>,
    expr_arena: &Arena<AExpr>,
    has_apply: bool,
    r: bool,
)
    requires
        0 < keys@.len() < 3 && !has_apply ==> forall|i: int|
            #![trigger keys@[i]]
            0 <= i < keys@.len() ==> stands(keys@[i], *expr_arena),
        call_ensures(partitionable_gb, (keys, aggs, input_schema, expr_arena, has_apply), r),
    ensures
        r <==> {
            &&& keys@.len() == 1 || keys@.len() == 2
            &&& !has_apply
            &&& forall|i: int|
                #![trigger keys@[i]]
                0 <= i < keys@.len() ==> expr_nodes(
                    *expr_arena,
                )[expr_node(keys@[i]) as int].inputs.len() == 0 && !expr_nodes(
                    *expr_arena,
                )[expr_node(keys@[i]) as int].literal_series
            &&& pre_agg_answer(aggs@, *expr_arena, *input_schema) == Some(true)
        },
{
    law_partitions(keys@, aggs@, *input_schema, *expr_arena, has_apply, r);
}

/// A place is marked exactly where all its inputs are there and marked, and no marked place
/// can be reached from itself.
pub proof fn law_ground(edges: &Vec<Vec<usize>>, marks: Vec<bool>, chain: Seq<usize>)
    requires
        call_ensures(ground, (edges,), marks),
    ensures
        marks@.len() == edges@.len(),
        forall|n: int|
            0 <= n < edges@.len() ==> (#[trigger] marks@[n] <==> forall|i: int|
                0 <= i < edges@[n]@.len() ==> #[trigger] edges@[n]@[i] < marks@.len()
                    && marks@[edges@[n]@[i] as int]),
        linked(Seq::new(edges@.len(), |n: int| edges@[n]@), chain) && chain.len() > 1
            && marks@[chain[0] as int] ==> chain[chain.len() - 1] != chain[0],
{
    let view = edge_view(edges@);
    assert(view =~= Seq::new(edges@.len(), |n: int| edges@[n]@));
    assert(marks@.len() == marks.len());
    assert forall|n: int| 0 <= n < edges@.len() implies (#[trigger] marks@[n] <==> forall|i: int|
        0 <= i < edges@[n]@.len() ==> #[trigger] edges@[n]@[i] < marks@.len()
            && marks@[edges@[n]@[i] as int]) by {
        lemma_marked_through_inputs(view, marks@, n);
        assert(view[n] == edges@[n]@);
    }
    if linked(view, chain) && chain.len() > 1 && marks@[chain[0] as int] {
        let first = chain[0];
        assert(first < view.len());
        law_grounded_places_have_no_cycles(view, chain);
    }
}

proof fn lemma_marked_through_inputs(edges: Seq<Seq<usize>>, marks: Seq<bool>, n: int)
    requires
        marks.len() == edges.len() <= usize::MAX,
        forall|n: int|
            0 <= n < edges.len() ==> #[trigger] marks[n] == grounded(edges, n as usize),
        0 <= n < edges.len(),
    ensures
        marks[n] <==> forall|i: int|
            0 <= i < edges[n].len() ==> #[trigger] edges[n][i] < marks.len()
                && marks[edges[n][i] as int],
{
    law_grounded_through_inputs(edges, n as usize);
    assert forall|i: int| 0 <= i < edges[n].len() implies (grounded(
        edges,
        #[trigger] edges[n][i],
    ) <==> edges[n][i] < marks.len() && marks[edges[n][i] as int]) by {
        let input = edges[n][i];
        law_grounded_through_inputs(edges, input);
        if input < marks.len() {
            assert(marks[input as int] == grounded(edges, input as int as usize));
        }
    }
}

/// A place of an expression arena is marked exactly where all inputs of its node are there and
/// marked, and no marked place can be reached from itself.
pub proof fn law_standing(arena: &Arena<AExpr>, marks: Vec<bool>, chain: Seq<usize>)
    requires
        call_ensures(standing, (arena,), marks),
    ensures
        marks@.len() == expr_nodes(*arena).len(),
        forall|n: int|
            0 <= n < marks@.len() ==> (#[trigger] marks@[n] <==> forall|i: int|
                0 <= i < expr_nodes(*arena)[n].inputs.len() ==> #[trigger] expr_nodes(
                    *arena,
                )[n].inputs[i] < marks@.len() && marks@[expr_nodes(*arena)[n].inputs[i] as int]),
        linked(
            Seq::new(expr_nodes(*arena).len(), |n: int| expr_nodes(*arena)[n].inputs),
            chain,
        ) && chain.len() > 1 && marks@[chain[0] as int] ==> chain[chain.len() - 1] != chain[0],
{
    let nodes = expr_nodes(*arena);
    let edges = expr_edges(*arena);
    assert(edges =~= Seq::new(nodes.len(), |n: int| nodes[n].inputs));
    assert(marks@.len() == marks.len());
    assert forall|n: int| 0 <= n < marks@.len() implies (#[trigger] marks@[n] <==> forall|i: int|
        0 <= i < nodes[n].inputs.len() ==> #[trigger] nodes[n].inputs[i] < marks@.len()
            && marks@[nodes[n].inputs[i] as int]) by {
        lemma_marked_through_inputs(edges, marks@, n);
        assert(edges[n] == nodes[n].inputs);
    }
    if linked(edges, chain) && chain.len() > 1 && marks@[chain[0] as int] {
        let first = chain[0];
        assert(first < edges.len());
        law_grounded_places_have_no_cycles(edges, chain);
    }
}

/// Expressions are shallow exactly where each of them is settled, from the first to the last.
pub proof fn law_are_shallow(
    exprs: &Vec<ExprIR>,
    arena: &Arena<AExpr>,
    depth: u16,
    marks: &Vec<bool>,
    r: bool,
)
    requires
        call_ensures(are_shallow, (exprs, arena, depth, marks), r),
    ensures
        r <==> forall|i: int|
            #![trigger exprs@[i]]
            0 <= i < exprs@.len() ==> settled(exprs@[i], *arena, depth),
{
    law_shallow_expressions(exprs@, *arena, depth);
}

/// The run lengths of a mask lie one behind the other over one row more than the mask has
/// entries, and a run starts exactly at the first row and behind each set entry.
pub proof fn law_lengths_of_changes(mask: &Vec<bool>, r: Vec<IdxSize>)
    requires
        call_ensures(lengths_of_changes, (mask,), r),
    ensures
        exists|starts: Seq<int>|
            {
                &&& #[trigger] starts.len() == r@.len() + 1
                &&& starts[0] == 0
                &&& starts[r@.len() as int] == mask@.len() + 1
                &&& forall|k: int|
                    #![trigger r@[k]]
                    0 <= k < r@.len() ==> starts[k + 1] == starts[k] + r@[k] && r@[k] >= 1
                &&& forall|i: int|
                    #![trigger mask@[i]]
                    0 <= i < mask@.len() ==> (mask@[i] <==> exists|k: int|
                        0 < k < r@.len() && #[trigger] starts[k] == i + 1)
            },
{
    let lens = r@.map_values(|v: IdxSize| v as int);
    law_lengths_of_masks(mask@);
    let starts = choose|starts: Seq<int>|
        {
            &&& #[trigger] starts.len() == lens.len() + 1
            &&& starts[0] == 0
            &&& starts[lens.len() as int] == mask@.len() + 1
            &&& forall|k: int|
                #![trigger lens[k]]
                0 <= k < lens.len() ==> starts[k + 1] == starts[k] + lens[k] && lens[k] >= 1
            &&& forall|i: int|
                #![trigger mask@[i]]
                0 <= i < mask@.len() ==> (mask@[i] <==> exists|k: int|
                    0 < k < lens.len() && #[trigger] starts[k] == i + 1)
        };
    assert forall|k: int| #![trigger r@[k]] 0 <= k < r@.len() implies starts[k + 1] == starts[k]
        + r@[k] && r@[k] >= 1 by {
        assert(lens[k] == r@[k]);
    }
    assert(starts.len() == r@.len() + 1);
}

/// The run numbers of a mask start at zero, and grow by one exactly behind each set entry.
pub proof fn law_ids_of_changes(mask: &Vec<bool>, r: Vec<IdxSize>)
    requires
        call_ensures(ids_of_changes, (mask,), r),
    ensures
        r@.len() == mask@.len() + 1,
        r@[0] == 0,
        forall|i: int, j: int|
            #![trigger r@[i], r@[j]]
            0 <= i && j == i + 1 && i < mask@.len() ==> r@[j] == r@[i] + if mask@[i] {
                1int
            } else {
                0int
            },
{
    let ids = r@.map_values(|v: IdxSize| v as int);
    law_numbers_of_masks(mask@);
    assert(ids[0] == r@[0]);
    assert forall|i: int, j: int|
        #![trigger r@[i], r@[j]]
        0 <= i && j == i + 1 && i < mask@.len() implies r@[j] == r@[i] + if mask@[i] {
        1int
    } else {
        0int
    } by {
        assert(ids[i] == r@[i] && ids[j] == r@[j]);
    }
}

/// Whether a column is a struct of run lengths and run values that expand to the rows of
/// another one, with no empty run and different values beside each other.
pub open spec fn encodes(column: Column, s: Column) -> bool {
    let fields = column_fields(column);
    &&& column_name(column) == column_name(s)
    &&& column_null_count(column) == 0
    &&& fields.len() == 2
    &&& fields[0].name == "len"@ && fields[0].dtype == idx_dtype()
    &&& fields[1].name == "value"@ && fields[1].dtype == column_dtype(s)
    &&& fields[0].values.len() == column_values(column).len()
    &&& fields[1].values.len() == column_values(column).len()
    &&& expand(fields[0].values, fields[1].values) == column_values(s)
    &&& forall|k: int| 0 <= k < fields[0].values.len() ==> #[trigger] fields[0].values[k] >= 1
    &&& forall|k: int, l: int|
        #![trigger fields[1].values[k], fields[1].values[l]]
        0 <= k && l == k + 1 && l < fields[1].values.len() ==> fields[1].values[k]
            != fields[1].values[l]
}

proof fn lemma_encodes(column: Column, s: Column)
    requires
        is_rle_of(column, s),
    ensures
        encodes(column, s),
{
    let rows = column_values(s);
    law_encoded_columns(s, column);
    law_runs_expand_to_rows(rows);
    law_runs_are_maximal(rows);
    let lens = column_fields(column)[0].values;
    assert forall|k: int| 0 <= k < lens.len() implies #[trigger] lens[k] >= 1 by {
        let run = runs(rows)[k];
        assert(run.len >= 1);
        assert(lens[k] == run.len);
    }
}

/// A column has its runs exactly where polars compares rows of its data type, and is answered
/// with polars' own refusal elsewhere.
pub proof fn law_rle(s: &Column, r: Result<Column, RleError>)
    requires
        call_ensures(rle, (s,), r),
    ensures
        match r {
            Ok(column) => comparable_dtype(column_dtype(*s)) && encodes(column, *s),
            Err(error) => !comparable_dtype(column_dtype(*s)) && comparison_errors(
                column_dtype(*s),
                column_name(*s),
                column_name(*s),
            ).contains(error.source),
        },
{
    match r {
        Ok(column) => {
            lemma_encodes(column, *s);
        },
        _ => {},
    }
}

/// Whether a column numbers the rows of another one by their runs: from zero on, and one more
/// exactly where a row differs from the row before it.
pub open spec fn numbers(column: Column, s: Column) -> bool {
    let ids = column_values(column);
    let rows = column_values(s);
    &&& column_name(column) == column_name(s)
    &&& column_dtype(column) == idx_dtype()
    &&& ids.len() == rows.len()
    &&& rows.len() > 0 ==> ids[0] == 0 && column_flagged_ascending(column)
    &&& forall|i: int, j: int|
        #![trigger ids[i], ids[j]]
        0 <= i && j == i + 1 && j < rows.len() ==> ids[j] == ids[i] + if rows[i] == rows[j] {
            0int
        } else {
            1int
        }
}

/// The rows of a column are numbered exactly where it has none or polars compares rows of its
/// data type, and it is answered with polars' own refusal elsewhere.
pub proof fn law_rle_id(s: &Column, r: Result<Column, RleError>)
    requires
        call_ensures(rle_id, (s,), r),
    ensures
        match r {
            Ok(column) => (column_values(*s).len() == 0 || comparable_dtype(column_dtype(*s)))
                && numbers(column, *s),
            Err(error) => column_values(*s).len() > 0 && !comparable_dtype(column_dtype(*s))
                && comparison_errors(
                column_dtype(*s),
                column_name(*s),
                column_name(*s),
            ).contains(error.source),
        },
{
    match r {
        Ok(column) => {
            law_numbered_columns(*s, column);
        },
        _ => {},
    }
}

/// Any column that is short enough and known to compare is encoded, as [`law_rle`] says, and
/// no other one.
pub proof fn law_checked_rle(s: &Column, r: Option<Result<Column, RleError>>)
    requires
        call_ensures(checked_rle, (s,), r),
    ensures
        r is Some <==> column_values(*s).len() < IdxSize::MAX && known_to_compare(*s),
        match r {
            Some(Ok(column)) => comparable_dtype(column_dtype(*s)) && encodes(column, *s),
            Some(Err(error)) => !comparable_dtype(column_dtype(*s)) && comparison_errors(
                column_dtype(*s),
                column_name(*s),
                column_name(*s),
            ).contains(error.source),
            None => true,
        },
{
    match r {
        Some(Ok(column)) => {
            lemma_encodes(column, *s);
        },
        _ => {},
    }
}

/// Any column that is short enough, and is empty or known to compare, has its rows numbered,
/// as [`law_rle_id`] says, and no other one.
pub proof fn law_checked_rle_id(s: &Column, r: Option<Result<Column, RleError>>)
    requires
        call_ensures(checked_rle_id, (s,), r),
    ensures
        r is Some <==> column_values(*s).len() < IdxSize::MAX && (column_values(*s).len() == 0
            || known_to_compare(*s)),
        match r {
            Some(Ok(column)) => (column_values(*s).len() == 0 || comparable_dtype(
                column_dtype(*s),
            )) && numbers(column, *s),
            Some(Err(error)) => column_values(*s).len() > 0 && !comparable_dtype(column_dtype(*s))
                && comparison_errors(
                column_dtype(*s),
                column_name(*s),
                column_name(*s),
            ).contains(error.source),
            None => true,
        },
{
    match r {
        Some(Ok(column)) => {
            law_numbered_columns(*s, column);
        },
        _ => {},
    }
}

/// What is known of a column. A series compares where its rows are booleans, numbers of a type
/// that polars is built with, texts, bytes, nulls or categories, or hold nothing but such rows;
/// a column that repeats a value does where the value is a null or of the column's plain data
/// type; and of another column nothing is known.
pub proof fn law_is_known_to_compare(column: &Column, r: bool)
    requires
        call_ensures(is_known_to_compare, (column,), r),
    ensures
        ({
            let dtype = column_type(*column);
            let kind = dtype_kind(dtype);
            let plain = {
                ||| kind == TypeKind::Boolean
                ||| kind == TypeKind::UInt32
                ||| kind == TypeKind::UInt64
                ||| kind == TypeKind::Int32
                ||| kind == TypeKind::Int64
                ||| kind == TypeKind::Float32
                ||| kind == TypeKind::Float64
                ||| kind == TypeKind::String
                ||| kind == TypeKind::Binary
                ||| kind == TypeKind::Null
            };
            &&& series_column(*column) && repeated_type(*column) is None ==> (r <==> {
                ||| plain
                ||| kind == TypeKind::BinaryOffset
                ||| kind == TypeKind::Categorical
                ||| kind == TypeKind::Enum
                ||| dtype_inner(dtype).len() > 0 && forall|i: int|
                    #![trigger dtype_inner(dtype)[i]]
                    0 <= i < dtype_inner(dtype).len() ==> plain_rows(dtype_inner(dtype)[i], 63)
            })
            &&& !series_column(*column) ==> (r <==> plain && (
            repeated_type(*column) matches Some(value) && (dtype_kind(value) == TypeKind::Null
                || dtype_kind(value) == kind)))
        }),
{
    if series_column(*column) {
        if repeated_type(*column) is None {
            law_known_series(*column);
        }
    } else if repeated_type(*column) is Some {
        law_known_repetitions(*column, repeated_type(*column).unwrap());
    }
}

/// A plan can be planned only where it stands under its place and no node comes twice in its
/// order.
pub proof fn law_plan_is_tree(arena: &Arena<IR>, root: usize, r: bool)
    requires
        call_ensures(plan_is_tree, (arena, root), r),
    ensures
        r <==> is_plan(arena_irs(*arena), root, false) && order(
            root_plan(arena_irs(*arena), root),
        ).no_duplicates(),
{
    law_distinct_plans(root_plan(arena_irs(*arena), root));
}

/// A plan is vouched for only where it is a tree; where it is one, and every node of it is a
/// sink or settled; and where no node is a sink, only where every node is settled.
pub proof fn law_plan_is_vouched(
    lp_arena: &Arena<IR>,
    root: usize,
    expr_arena: &Arena<AExpr>,
    depth: u16,
    r: bool,
)
    requires
        call_ensures(plan_is_vouched, (lp_arena, root, expr_arena, depth), r),
    ensures
        ({
            let irs = arena_irs(*lp_arena);
            let plan = root_plan(irs, root);
            &&& r ==> is_tree(irs, root)
            &&& is_tree(irs, root) && (forall|n: usize| #[trigger]
                has_node(plan, n) ==> ir_kind(irs[n as int]) is MemorySink || ir_kind(
                    irs[n as int],
                ) is FileSink || node_settled(irs, n, *expr_arena, depth)) ==> r
            &&& r && (forall|n: usize| #[trigger]
                has_node(plan, n) ==> !(ir_kind(irs[n as int]) is MemorySink) && !(ir_kind(
                    irs[n as int],
                ) is FileSink)) ==> forall|n: usize| #[trigger]
                has_node(plan, n) ==> node_settled(irs, n, *expr_arena, depth)
        }),
{
    let irs = arena_irs(*lp_arena);
    if is_tree(irs, root) {
        law_vouched_plans_are_settled(irs, root_plan(irs, root), *expr_arena, depth);
    }
}

/// Planning asks for the number of threads only where a node of the plan computes columns, and
/// in a plan without a sink, wherever one does.
pub proof fn law_plan_asks_for_threads(arena: &Arena<IR>, root: usize, r: bool)
    requires
        is_tree(arena_irs(*arena), root),
        call_ensures(plan_asks_for_threads, (arena, root), r),
    ensures
        ({
            let irs = arena_irs(*arena);
            let plan = root_plan(irs, root);
            &&& r ==> exists|n: usize| #[trigger]
                has_node(plan, n) && (ir_kind(irs[n as int]) is Select || ir_kind(
                    irs[n as int],
                ) is HStack)
            &&& (forall|m: usize| #[trigger]
                has_node(plan, m) ==> !(ir_kind(irs[m as int]) is MemorySink) && !(ir_kind(
                    irs[m as int],
                ) is FileSink)) && (exists|n: usize| #[trigger]
                has_node(plan, n) && (ir_kind(irs[n as int]) is Select || ir_kind(
                    irs[n as int],
                ) is HStack)) ==> r
        }),
{
    law_columns_ask_for_threads(arena_irs(*arena), root_plan(arena_irs(*arena), root));
}

/// The surroundings are those that are given, all of them as they are, where polars can read
/// the limit of depth, and otherwise the error is polars' own.
pub proof fn law_from_parts(
    depth: Result<u16, PolarsError>,
    threads: usize,
    string_cache: Setting<bool>,
    fetch_rows: Setting<Option<usize>>,
    multi_file: bool,
    r: Result<ConversionState, PlanError>,
)
    requires
        call_ensures(
            ConversionState::from_parts,
            (depth, threads, string_cache, fetch_rows, multi_file),
            r,
        ),
    ensures
        r is Ok <==> depth is Ok,
        r matches Ok(state) ==> depth == Ok::<u16, PolarsError>(state.expr_depth) && state.threads
            == threads && state.string_cache == string_cache && state.fetch_rows == fetch_rows
            && state.multi_file == multi_file,
        r matches Err(error) ==> (error matches PlanError::DepthLimit { source } && depth
            == Err::<u16, PolarsError>(source)),
{
}

/// Only the errors of planning itself have a message: that of a sink to memory is always the
/// same, and that of a sink to a file names the type of the file twice.
pub proof fn law_message(error: &PlanError, r: Option<String>)
    requires
        call_ensures(PlanError::message, (error,), r),
    ensures
        r is Some <==> error is MemorySink || error is FileSink,
        error is MemorySink ==> r.unwrap()@
            == "memory sink not supported in the standard engine"@,
        *error matches PlanError::FileSink { file_type } ==> r.unwrap()@ == "sink_"@ + file_type@
            + " not yet supported in standard engine. Use 'collect().write_"@ + file_type@
            + "()'"@,
{
}

} // verus!
