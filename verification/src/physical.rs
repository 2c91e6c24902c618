//! Physical plans, and which of them a logical plan may become.
use crate::decisions::{in_parallel, may_read, may_stream, reader_of, Reader};
use crate::expression::{
    all_compile, all_elementwise, all_literal, all_stand, compile_as, compile_into, compiles,
    elementwise_exprs, expr_form, expr_node, expr_nodes, expr_answers, expr_shape,
    has_categoricals, has_literal_series, may_compile, may_fail, pre_agg_answer, pre_aggregates,
    ExprContext,
};
use crate::graph::size;
use crate::logical::{
    finds_schema, ir_cross_filter, ir_exprs, ir_file_type, ir_inputs, ir_kind, ir_projection,
    ir_scan_schema, is_sink, schema_answers, LogicalTree, NodeKind,
};
use crate::order::{order, orders};
use crate::sources::{reads_partitioned, share_source};
use crate::state::{ConversionState, PlanError};
use polars_core::prelude::{DataType, IdxSize};
use polars_expr::prelude::PhysicalIoHelper;
use polars_plan::prelude::expr_ir::ExprIR;
use polars_plan::prelude::{AExpr, Arena, Expr, IR};
use polars_schema::Schema;
use std::sync::Arc;
use vstd::prelude::*;

verus! {

/// How a group-by forms and aggregates its groups.
pub enum Grouping {
    /// By dynamic windows over an index column.
    Dynamic,
    /// By rolling windows over an index column.
    Rolling,
    /// On partitions first, whose results are then put together by these keys and
    /// aggregations.
    Partitioned { from_partitioned_ds: bool, keys: Vec<Expr>, aggs: Vec<Expr> },
    /// On all rows at once.
    Whole,
}

/// A physical plan. What an executor only passes on (options, sources, output schemas)
/// stays inside the logical node that it came from.
#[allow(inconsistent_fields)]
pub enum Executor {
    /// Puts the rows of its inputs below each other.
    Union { node: IR, inputs: Vec<Executor> },
    /// Puts the columns of its inputs beside each other.
    HConcat { node: IR, inputs: Vec<Executor> },
    /// Cuts rows out of its input.
    Slice { input: Box<Executor>, offset: i64, len: IdxSize },
    /// Keeps the rows on which the predicate holds, batch by batch where it is streamable.
    Filter {
        input: Box<Executor>,
        predicate: PhysicalIoHelper,
        has_windows: bool,
        streamable: bool,
    },
    /// Reads files. The slice given here stands in place of the one in the node.
    Scan {
        reader: Reader,
        node: IR,
        predicate: Option<PhysicalIoHelper>,
        predicate_has_windows: bool,
        slice: Option<(i64, usize)>,
    },
    /// Computes columns; with vertical parallelism, on parts of the rows at a time.
    Projection {
        input: Box<Executor>,
        node: IR,
        exprs: Vec<PhysicalIoHelper>,
        has_windows: bool,
        input_schema: Arc<Schema<DataType>>,
        allow_vertical_parallelism: bool,
    },
    /// Gives the frame inside the node, cut to the named columns where they are given.
    DataFrame { node: IR, projection: Option<Vec<String>> },
    /// Sorts its input by columns.
    Sort { input: Box<Executor>, node: IR, by_column: Vec<PhysicalIoHelper> },
    /// Keeps its input under a name until it has been asked for so many times.
    Cache { input: Box<Executor>, id: usize, count: u32 },
    /// Drops rows that occur before.
    Unique { input: Box<Executor>, node: IR },
    /// Groups its input by keys and aggregates the groups.
    GroupBy {
        input: Box<Executor>,
        node: IR,
        keys: Vec<PhysicalIoHelper>,
        aggs: Vec<PhysicalIoHelper>,
        input_schema: Arc<Schema<DataType>>,
        grouping: Grouping,
    },
    /// Joins its inputs. The filter, where there is one, is applied to the joined rows of a
    /// cross join.
    Join {
        input_left: Box<Executor>,
        input_right: Box<Executor>,
        node: IR,
        left_on: Vec<PhysicalIoHelper>,
        right_on: Vec<PhysicalIoHelper>,
        parallel: bool,
        cross_filter: Option<PhysicalIoHelper>,
    },
    /// Adds columns; with vertical parallelism, on parts of the rows at a time.
    Stack {
        input: Box<Executor>,
        node: IR,
        exprs: Vec<PhysicalIoHelper>,
        has_windows: bool,
        input_schema: Arc<Schema<DataType>>,
        allow_vertical_parallelism: bool,
    },
    /// Applies the function inside the node.
    Udf { input: Box<Executor>, node: IR },
    /// Gives its input, whose expressions may read the contexts.
    ExternalContext { input: Box<Executor>, contexts: Vec<Executor> },
    /// Picks columns by name.
    ProjectionSimple { input: Box<Executor>, node: IR },
}

/// The keys of a group-by, or the expressions of the left side of a join.
pub open spec fn first_exprs(ir: IR) -> Seq<ExprIR> {
    match ir_kind(ir) {
        NodeKind::GroupBy { keys, .. } => ir_exprs(ir).take(keys as int),
        NodeKind::Join { left_on, .. } => ir_exprs(ir).take(left_on as int),
        _ => ir_exprs(ir),
    }
}

/// The aggregations of a group-by, or the expressions of the right side of a join.
pub open spec fn other_exprs(ir: IR) -> Seq<ExprIR> {
    match ir_kind(ir) {
        NodeKind::GroupBy { keys, .. } => ir_exprs(ir).skip(keys as int),
        NodeKind::Join { left_on, .. } => ir_exprs(ir).skip(left_on as int),
        _ => Seq::empty(),
    }
}

/// Whether the keys of a group-by are simple enough to group partitions by: one or two,
/// each a single node and no literal series, and no function of the user's works on the
/// groups.
pub open spec fn keys_are_simple(keys: Seq<ExprIR>, arena: Arena<AExpr>, has_apply: bool) -> bool {
    &&& 0 < keys.len() < 3
    &&& !has_apply
    &&& forall|i: int|
        #![trigger keys[i]]
        0 <= i < keys.len() ==> size(expr_shape(keys[i], arena)) <= 1 && !has_literal_series(
            expr_nodes(arena),
            expr_shape(keys[i], arena),
        )
}

/// Whether `answer` may be the answer to whether a group-by can work on partitions.
pub open spec fn may_partition(
    keys: Seq<ExprIR>,
    aggs: Seq<ExprIR>,
    schema: Arc<Schema<DataType>>,
    arena: Arena<AExpr>,
    has_apply: bool,
    answer: bool,
) -> bool {
    if keys_are_simple(keys, arena, has_apply) {
        pre_agg_answer(aggs, arena, schema) == Some(answer)
    } else {
        !answer
    }
}

/// Whether a group-by may form its groups in this way.
pub open spec fn may_group(
    grouping: Grouping,
    plan: LogicalTree,
    arena: Arena<AExpr>,
    schema: Arc<Schema<DataType>>,
) -> bool {
    let keys = first_exprs(plan.ir);
    let aggs = other_exprs(plan.ir);
    match ir_kind(plan.ir) {
        NodeKind::GroupBy { dynamic: true, .. } => grouping is Dynamic,
        NodeKind::GroupBy { rolling: true, .. } => grouping is Rolling,
        NodeKind::GroupBy { has_apply, .. } => match grouping {
            Grouping::Partitioned { from_partitioned_ds, keys: key_forms, aggs: agg_forms } => {
                &&& may_partition(keys, aggs, schema, arena, has_apply, true)
                &&& from_partitioned_ds == reads_partitioned(plan.inputs[0])
                &&& key_forms@ == keys.map_values(|e: ExprIR| expr_form(e, arena))
                &&& agg_forms@ == aggs.map_values(|e: ExprIR| expr_form(e, arena))
            },
            Grouping::Whole => may_partition(keys, aggs, schema, arena, has_apply, false),
            _ => false,
        },
        _ => false,
    }
}

/// Whether an executor's predicate is what the predicate of a scan may compile to.
pub open spec fn scan_predicate_fits(
    predicate: Option<PhysicalIoHelper>,
    has_windows: bool,
    plan: LogicalTree,
    arena: Arena<AExpr>,
    state: ConversionState,
) -> bool {
    match predicate {
        Some(compiled) => ir_exprs(plan.ir).len() > 0 && expr_answers(
            ir_exprs(plan.ir)[0],
            arena,
            ExprContext::Default,
            ir_scan_schema(plan.ir),
            true,
            state.expr_depth,
        ).contains(Ok((compiled, has_windows))),
        None => ir_exprs(plan.ir).len() == 0 && !has_windows,
    }
}

/// Whether an executor's filter is what the predicate of a cross join may compile to.
pub open spec fn cross_filter_fits(
    filter: Option<PhysicalIoHelper>,
    plan: LogicalTree,
    arena: Arena<AExpr>,
    state: ConversionState,
) -> bool {
    match (filter, ir_cross_filter(plan.ir)) {
        (Some(compiled), Some((predicate, schema))) => {
            let outcomes = expr_answers(
                predicate,
                arena,
                ExprContext::Default,
                schema,
                false,
                state.expr_depth,
            );
            outcomes.contains(Ok((compiled, true))) || outcomes.contains(Ok((compiled, false)))
        },
        (None, None) => true,
        _ => false,
    }
}

/// Whether an executor may come of a plan: each node becomes one executor, whose inputs
/// come of the node's inputs, and whose fields follow from the node.
pub open spec fn plans(
    executor: Executor,
    plan: LogicalTree,
    arena: Arena<AExpr>,
    state: ConversionState,
) -> bool
    decreases plan,
{
    let depth = state.expr_depth;
    let exprs = ir_exprs(plan.ir);
    match (ir_kind(plan.ir), executor) {
        (NodeKind::Union { .. }, Executor::Union { node, inputs }) => {
            &&& node == plan.ir
            &&& inputs@.len() == plan.inputs.len()
            &&& plan.inputs.len() == ir_inputs(plan.ir).len()
            &&& forall|i: int|
                #![trigger plan.inputs[i]]
                0 <= i < plan.inputs.len() ==> plans(inputs@[i], plan.inputs[i], arena, state)
        },
        (NodeKind::HConcat, Executor::HConcat { node, inputs }) => {
            &&& node == plan.ir
            &&& inputs@.len() == plan.inputs.len()
            &&& plan.inputs.len() == ir_inputs(plan.ir).len()
            &&& forall|i: int|
                #![trigger plan.inputs[i]]
                0 <= i < plan.inputs.len() ==> plans(inputs@[i], plan.inputs[i], arena, state)
        },
        (NodeKind::Slice { offset: from, len: rows }, Executor::Slice { input, offset, len }) => {
            &&& plan.inputs.len() == 1
            &&& offset == from
            &&& len == rows
            &&& plans(*input, plan.inputs[0], arena, state)
        },
        (
            NodeKind::Filter,
            Executor::Filter { input, predicate, has_windows, streamable },
        ) => {
            &&& plan.inputs.len() == 1
            &&& plans(*input, plan.inputs[0], arena, state)
            &&& exists|schema: Arc<Schema<DataType>>| #[trigger]
                schema_answers(plan.inputs[0]).contains(schema) && expr_answers(
                    exprs[0],
                    arena,
                    ExprContext::Default,
                    schema,
                    true,
                    depth,
                ).contains(Ok((predicate, has_windows))) && may_stream(
                    streamable,
                    elementwise_exprs(arena).contains(expr_node(exprs[0])),
                    has_categoricals(*schema),
                    state.string_cache,
                )
        },
        (
            NodeKind::Scan { format, sources, slice: own },
            Executor::Scan { reader, node, predicate, predicate_has_windows, slice },
        ) => {
            &&& node == plan.ir
            &&& reader == reader_of(format, sources, state.multi_file)
            &&& may_read(slice, own, state.fetch_rows)
            &&& scan_predicate_fits(predicate, predicate_has_windows, plan, arena, state)
        },
        (
            NodeKind::Select { should_broadcast },
            Executor::Projection {
                input,
                node,
                exprs: compiled,
                has_windows,
                input_schema,
                allow_vertical_parallelism,
            },
        ) => {
            &&& plan.inputs.len() == 1
            &&& node == plan.ir
            &&& plans(*input, plan.inputs[0], arena, state)
            &&& schema_answers(plan.inputs[0]).contains(input_schema)
            &&& compile_into(
                exprs,
                arena,
                ExprContext::Default,
                input_schema,
                state.threads > exprs.len(),
                depth,
                compiled@,
                has_windows,
            )
            &&& allow_vertical_parallelism == (should_broadcast && all_elementwise(exprs, arena)
                && !all_literal(compiled@))
        },
        (NodeKind::DataFrameScan, Executor::DataFrame { node, projection }) => {
            &&& node == plan.ir
            &&& match projection {
                Some(names) => ir_projection(plan.ir) == Some(
                    names@.map_values(|name: String| name@),
                ),
                None => ir_projection(plan.ir) is None,
            }
        },
        (NodeKind::Sort, Executor::Sort { input, node, by_column }) => {
            &&& plan.inputs.len() == 1
            &&& node == plan.ir
            &&& plans(*input, plan.inputs[0], arena, state)
            &&& exists|schema: Arc<Schema<DataType>>| #[trigger]
                schema_answers(plan.inputs[0]).contains(schema) && compile_as(
                    exprs,
                    arena,
                    ExprContext::Default,
                    schema,
                    true,
                    depth,
                    by_column@,
                )
        },
        (NodeKind::Cache { id: name, cache_hits }, Executor::Cache { input, id, count }) => {
            &&& plan.inputs.len() == 1
            &&& id == name
            &&& count == cache_hits
            &&& plans(*input, plan.inputs[0], arena, state)
        },
        (NodeKind::Distinct, Executor::Unique { input, node }) => {
            &&& plan.inputs.len() == 1
            &&& node == plan.ir
            &&& plans(*input, plan.inputs[0], arena, state)
        },
        (
            NodeKind::GroupBy { .. },
            Executor::GroupBy { input, node, keys, aggs, input_schema, grouping },
        ) => {
            &&& plan.inputs.len() == 1
            &&& node == plan.ir
            &&& plans(*input, plan.inputs[0], arena, state)
            &&& schema_answers(plan.inputs[0]).contains(input_schema)
            &&& compile_as(
                first_exprs(plan.ir),
                arena,
                ExprContext::Default,
                input_schema,
                true,
                depth,
                keys@,
            )
            &&& compile_as(
                other_exprs(plan.ir),
                arena,
                ExprContext::Aggregation,
                input_schema,
                true,
                depth,
                aggs@,
            )
            &&& may_group(grouping, plan, arena, input_schema)
        },
        (
            NodeKind::Join { force_parallel, allow_parallel, .. },
            Executor::Join {
                input_left,
                input_right,
                node,
                left_on,
                right_on,
                parallel,
                cross_filter,
            },
        ) => {
            &&& plan.inputs.len() == 2
            &&& node == plan.ir
            &&& plans(*input_left, plan.inputs[0], arena, state)
            &&& plans(*input_right, plan.inputs[1], arena, state)
            &&& parallel == in_parallel(
                force_parallel,
                allow_parallel,
                share_source(plan.inputs[0], plan.inputs[1]),
            )
            &&& exists|schema: Arc<Schema<DataType>>| #[trigger]
                schema_answers(plan.inputs[0]).contains(schema) && compile_as(
                    first_exprs(plan.ir),
                    arena,
                    ExprContext::Default,
                    schema,
                    true,
                    depth,
                    left_on@,
                )
            &&& exists|schema: Arc<Schema<DataType>>| #[trigger]
                schema_answers(plan.inputs[1]).contains(schema) && compile_as(
                    other_exprs(plan.ir),
                    arena,
                    ExprContext::Default,
                    schema,
                    true,
                    depth,
                    right_on@,
                )
            &&& cross_filter_fits(cross_filter, plan, arena, state)
        },
        (
            NodeKind::HStack { should_broadcast },
            Executor::Stack {
                input,
                node,
                exprs: compiled,
                has_windows,
                input_schema,
                allow_vertical_parallelism,
            },
        ) => {
            &&& plan.inputs.len() == 1
            &&& node == plan.ir
            &&& plans(*input, plan.inputs[0], arena, state)
            &&& schema_answers(plan.inputs[0]).contains(input_schema)
            &&& compile_into(
                exprs,
                arena,
                ExprContext::Default,
                input_schema,
                state.threads > exprs.len(),
                depth,
                compiled@,
                has_windows,
            )
            &&& allow_vertical_parallelism == (should_broadcast && all_elementwise(exprs, arena))
        },
        (NodeKind::MapFunction, Executor::Udf { input, node }) => {
            &&& plan.inputs.len() == 1
            &&& node == plan.ir
            &&& plans(*input, plan.inputs[0], arena, state)
        },
        (NodeKind::ExtContext, Executor::ExternalContext { input, contexts }) => {
            &&& plan.inputs.len() == contexts@.len() + 1
            &&& plan.inputs.len() == ir_inputs(plan.ir).len()
            &&& plans(*input, plan.inputs[0], arena, state)
            &&& forall|i: int|
                #![trigger plan.inputs[i]]
                0 < i < plan.inputs.len() ==> plans(contexts@[i - 1], plan.inputs[i], arena, state)
        },
        (NodeKind::SimpleProjection, Executor::ProjectionSimple { input, node }) => {
            &&& plan.inputs.len() == 1
            &&& node == plan.ir
            &&& plans(*input, plan.inputs[0], arena, state)
        },
        _ => false,
    }
}

/// Whether some executor may come of a plan.
pub open spec fn plannable(plan: LogicalTree, arena: Arena<AExpr>, state: ConversionState) -> bool {
    exists|executor: Executor| #[trigger] plans(executor, plan, arena, state)
}

/// Whether an error may be that of one of the inputs of a plan, planned in order, after so
/// many nodes of the inputs have been taken.
pub open spec fn inputs_fail(
    error: PlanError,
    count: int,
    plan: LogicalTree,
    arena: Arena<AExpr>,
    state: ConversionState,
) -> bool
    decreases plan, 0int,
{
    exists|i: int|
        #![trigger plan.inputs[i]]
        0 <= i < plan.inputs.len() && fails(
            error,
            count - orders(plan.inputs.subrange(0, i)).len(),
            plan.inputs[i],
            arena,
            state,
        ) && forall|j: int|
            #![trigger plan.inputs[j]]
            0 <= j < i ==> plannable(plan.inputs[j], arena, state)
}

/// Whether an error may be that of compiling an expression on columns, one of `exprs`.
pub open spec fn exprs_fail(
    error: PlanError,
    exprs: Seq<ExprIR>,
    arena: Arena<AExpr>,
    context: ExprContext,
    schema: Arc<Schema<DataType>>,
    allow_threading: bool,
    depth: u16,
) -> bool {
    error matches PlanError::Expression { source } && may_fail(
        exprs,
        arena,
        context,
        schema,
        allow_threading,
        depth,
        source,
    )
}

/// Whether an error may be that of compiling one expression on columns.
pub open spec fn expr_fails(
    error: PlanError,
    expr: ExprIR,
    arena: Arena<AExpr>,
    schema: Arc<Schema<DataType>>,
    allow_threading: bool,
    depth: u16,
) -> bool {
    error matches PlanError::Expression { source } && expr_answers(
        expr,
        arena,
        ExprContext::Default,
        schema,
        allow_threading,
        depth,
    ).contains(Err(source))
}

/// Whether an error may come of a plan, after so many of its nodes have been taken out of the
/// arena. What is planned or compiled before the part that fails may succeed.
pub open spec fn fails(
    error: PlanError,
    count: int,
    plan: LogicalTree,
    arena: Arena<AExpr>,
    state: ConversionState,
) -> bool
    decreases plan, 1int,
{
    let depth = state.expr_depth;
    let exprs = ir_exprs(plan.ir);
    let first = first_exprs(plan.ir);
    let other = other_exprs(plan.ir);
    match ir_kind(plan.ir) {
        NodeKind::MemorySink => error is MemorySink && count == 1,
        NodeKind::FileSink => error matches PlanError::FileSink { file_type } && file_type@
            == ir_file_type(plan.ir) && count == 1,
        NodeKind::Union { .. }
        | NodeKind::HConcat
        | NodeKind::Slice { .. }
        | NodeKind::Cache { .. }
        | NodeKind::Distinct
        | NodeKind::MapFunction
        | NodeKind::ExtContext
        | NodeKind::SimpleProjection => inputs_fail(error, count - 1, plan, arena, state),
        NodeKind::Filter => {
            ||| inputs_fail(error, count - 1, plan, arena, state)
            ||| count == order(plan).len() && plannable(plan.inputs[0], arena, state) && exists|
                schema: Arc<Schema<DataType>>,
            | #[trigger]
                schema_answers(plan.inputs[0]).contains(schema) && expr_fails(
                    error,
                    exprs[0],
                    arena,
                    schema,
                    true,
                    depth,
                )
        },
        NodeKind::Scan { .. } => count == 1 && exprs.len() > 0 && expr_fails(
            error,
            exprs[0],
            arena,
            ir_scan_schema(plan.ir),
            true,
            depth,
        ),
        NodeKind::Select { .. } | NodeKind::HStack { .. } => {
            ||| inputs_fail(error, count - 1, plan, arena, state)
            ||| count == order(plan).len() && plannable(plan.inputs[0], arena, state) && exists|
                schema: Arc<Schema<DataType>>,
            | #[trigger]
                schema_answers(plan.inputs[0]).contains(schema) && exprs_fail(
                    error,
                    exprs,
                    arena,
                    ExprContext::Default,
                    schema,
                    state.threads > exprs.len(),
                    depth,
                )
        },
        NodeKind::Sort => exists|schema: Arc<Schema<DataType>>| #[trigger]
            schema_answers(plan.inputs[0]).contains(schema) && {
                ||| count == 1 && exprs_fail(
                    error,
                    exprs,
                    arena,
                    ExprContext::Default,
                    schema,
                    true,
                    depth,
                )
                ||| may_compile(exprs, arena, ExprContext::Default, schema, true, depth)
                    && inputs_fail(error, count - 1, plan, arena, state)
            },
        NodeKind::GroupBy { .. } => exists|schema: Arc<Schema<DataType>>| #[trigger]
            schema_answers(plan.inputs[0]).contains(schema) && {
                ||| count == 1 && exprs_fail(
                    error,
                    first,
                    arena,
                    ExprContext::Default,
                    schema,
                    true,
                    depth,
                )
                ||| count == 1 && may_compile(
                    first,
                    arena,
                    ExprContext::Default,
                    schema,
                    true,
                    depth,
                ) && exprs_fail(
                    error,
                    other,
                    arena,
                    ExprContext::Aggregation,
                    schema,
                    true,
                    depth,
                )
                ||| may_compile(first, arena, ExprContext::Default, schema, true, depth) && may_compile(
                    other,
                    arena,
                    ExprContext::Aggregation,
                    schema,
                    true,
                    depth,
                ) && inputs_fail(error, count - 1, plan, arena, state)
            },
        NodeKind::Join { .. } => {
            ||| inputs_fail(error, count - 1, plan, arena, state)
            ||| count == order(plan).len() && plannable(plan.inputs[0], arena, state) && plannable(
                plan.inputs[1],
                arena,
                state,
            ) && exists|left: Arc<Schema<DataType>>, right: Arc<Schema<DataType>>|
                #[trigger]
                schema_answers(plan.inputs[0]).contains(left) && #[trigger] schema_answers(
                    plan.inputs[1],
                ).contains(right) && {
                    ||| exprs_fail(error, first, arena, ExprContext::Default, left, true, depth)
                    ||| may_compile(first, arena, ExprContext::Default, left, true, depth)
                        && exprs_fail(
                        error,
                        other,
                        arena,
                        ExprContext::Default,
                        right,
                        true,
                        depth,
                    )
                    ||| may_compile(first, arena, ExprContext::Default, left, true, depth)
                        && may_compile(other, arena, ExprContext::Default, right, true, depth) && (
                    ir_cross_filter(plan.ir) matches Some((predicate, schema)) && expr_fails(
                        error,
                        predicate,
                        arena,
                        schema,
                        false,
                        depth,
                    ))
                }
        },
        NodeKind::DataFrameScan | NodeKind::Invalid => false,
    }
}

/// Whether polars comes back from everything that planning asks of it: the expressions
/// stand in the arena, it finds the schemas that are needed, and it comes back from
/// compiling the expressions. Planning asks nothing of a sink and of what lies below.
pub open spec fn ready(plan: LogicalTree, arena: Arena<AExpr>, state: ConversionState) -> bool
    decreases plan,
{
    let depth = state.expr_depth;
    let exprs = ir_exprs(plan.ir);
    let first = first_exprs(plan.ir);
    let other = other_exprs(plan.ir);
    is_sink(ir_kind(plan.ir)) || {
        &&& forall|i: int|
            #![trigger plan.inputs[i]]
            0 <= i < plan.inputs.len() ==> ready(plan.inputs[i], arena, state)
        &&& all_stand(exprs, arena)
        &&& match ir_kind(plan.ir) {
            NodeKind::Filter => finds_schema(plan.inputs[0]) && forall|
                schema: Arc<Schema<DataType>>,
            | #[trigger]
                schema_answers(plan.inputs[0]).contains(schema) ==> compiles(
                    exprs[0],
                    arena,
                    ExprContext::Default,
                    schema,
                    true,
                    depth,
                ),
            NodeKind::Scan { .. } => exprs.len() > 0 ==> compiles(
                exprs[0],
                arena,
                ExprContext::Default,
                ir_scan_schema(plan.ir),
                true,
                depth,
            ),
            NodeKind::Select { .. } | NodeKind::HStack { .. } => finds_schema(
                plan.inputs[0],
            ) && forall|schema: Arc<Schema<DataType>>| #[trigger]
                schema_answers(plan.inputs[0]).contains(schema) ==> all_compile(
                    exprs,
                    arena,
                    ExprContext::Default,
                    schema,
                    state.threads > exprs.len(),
                    depth,
                ),
            NodeKind::Sort => finds_schema(plan.inputs[0]) && forall|schema: Arc<Schema<DataType>>|
                #[trigger]
                schema_answers(plan.inputs[0]).contains(schema) ==> all_compile(
                    exprs,
                    arena,
                    ExprContext::Default,
                    schema,
                    true,
                    depth,
                ),
            NodeKind::GroupBy { has_apply, dynamic, rolling, .. } => finds_schema(
                plan.inputs[0],
            ) && forall|schema: Arc<Schema<DataType>>| #[trigger]
                schema_answers(plan.inputs[0]).contains(schema) ==> all_compile(
                    first,
                    arena,
                    ExprContext::Default,
                    schema,
                    true,
                    depth,
                ) && all_compile(other, arena, ExprContext::Aggregation, schema, true, depth)
                    && (!dynamic && !rolling && keys_are_simple(first, arena, has_apply)
                    ==> pre_aggregates(other, arena, schema)),
            NodeKind::Join { .. } => {
                &&& finds_schema(plan.inputs[0])
                &&& finds_schema(plan.inputs[1])
                &&& forall|schema: Arc<Schema<DataType>>| #[trigger]
                    schema_answers(plan.inputs[0]).contains(schema) ==> all_compile(
                        first,
                        arena,
                        ExprContext::Default,
                        schema,
                        true,
                        depth,
                    )
                &&& forall|schema: Arc<Schema<DataType>>| #[trigger]
                    schema_answers(plan.inputs[1]).contains(schema) ==> all_compile(
                        other,
                        arena,
                        ExprContext::Default,
                        schema,
                        true,
                        depth,
                    )
                &&& ir_cross_filter(plan.ir) matches Some((predicate, schema)) ==> compiles(
                    predicate,
                    arena,
                    ExprContext::Default,
                    schema,
                    false,
                    depth,
                )
            },
            _ => true,
        }
    }
}

} // verus!
