//! What each node of a plan becomes, said of what polars' own values hold.
use crate::decisions::{may_stream, Reader};
use crate::expression::{
    compile_as, compile_into, compile_to, elementwise_exprs, expr_answers, expr_form, expr_node,
    expr_nodes, expr_outcomes, expr_shape, has_categoricals, has_literal_series, is_categorical,
    is_literal_expr, pre_agg_answer, schema_dtypes, stands, ExprContext,
};
use crate::expression_laws::law_single_nodes;
use crate::graph::size;
use crate::logical::{
    has_node, ir_cross_filter, ir_exprs, ir_inputs, ir_kind, ir_paths, ir_projection,
    ir_scan_schema, looked_inputs, represents, schema_answers, schema_outcomes, LogicalTree,
    NodeKind, ScanFormat,
};
use crate::physical::{
    first_exprs, keys_are_simple, may_partition, other_exprs, plans, ready, Executor, Grouping,
};
use crate::source_laws::{law_partitioned_datasets, law_shared_sources};
use crate::state::{ConversionState, Setting};
use polars_core::prelude::DataType;
use polars_expr::prelude::PhysicalIoHelper;
use polars_plan::prelude::expr_ir::ExprIR;
use polars_plan::prelude::{AExpr, Arena, IR};
use polars_schema::Schema;
use std::sync::Arc;
use vstd::prelude::*;

verus! {

/// Compiled expressions are what polars makes of the expressions, one for one and in order:
/// each in the context, on the schema, with the threads and with the limit of depth that are
/// given.
pub proof fn law_compiled_one_by_one(
    exprs: Seq<ExprIR>,
    arena: Arena<AExpr>,
    context: ExprContext,
    schema: Arc<Schema<DataType>>,
    allow_threading: bool,
    depth: u16,
    compiled: Seq<PhysicalIoHelper>,
)
    requires
        compile_as(exprs, arena, context, schema, allow_threading, depth, compiled),
    ensures
        compiled.len() == exprs.len(),
        forall|i: int|
            #![trigger exprs[i]]
            #![trigger compiled[i]]
            0 <= i < exprs.len() ==> {
                let outcomes = expr_outcomes(
                    exprs[i],
                    arena,
                    context,
                    schema,
                    allow_threading,
                    depth,
                );
                outcomes.contains(Ok((compiled[i], true))) || outcomes.contains(
                    Ok((compiled[i], false)),
                )
            },
{
    let windows = choose|windows: Seq<bool>| #[trigger]
        compile_to(exprs, arena, context, schema, allow_threading, depth, compiled, windows);
    assert forall|i: int|
        #![trigger exprs[i]]
        #![trigger compiled[i]]
        0 <= i < exprs.len() implies {
        let outcomes = expr_outcomes(exprs[i], arena, context, schema, allow_threading, depth);
        outcomes.contains(Ok((compiled[i], true))) || outcomes.contains(Ok((compiled[i], false)))
    } by {
        assert(expr_answers(exprs[i], arena, context, schema, allow_threading, depth).contains(
            Ok((compiled[i], windows[i])),
        ));
        if windows[i] {
            assert(windows[i] == true);
        }
    }
}

/// Expressions hold a window function exactly where polars found one in some of them: the
/// flag is set only by an expression in which one occurs, and is clear only where none does.
pub proof fn law_windows_are_noticed(
    exprs: Seq<ExprIR>,
    arena: Arena<AExpr>,
    context: ExprContext,
    schema: Arc<Schema<DataType>>,
    allow_threading: bool,
    depth: u16,
    compiled: Seq<PhysicalIoHelper>,
    has_windows: bool,
)
    requires
        compile_into(
            exprs,
            arena,
            context,
            schema,
            allow_threading,
            depth,
            compiled,
            has_windows,
        ),
    ensures
        has_windows ==> exists|i: int|
            #![trigger exprs[i]]
            0 <= i < exprs.len() && expr_outcomes(
                exprs[i],
                arena,
                context,
                schema,
                allow_threading,
                depth,
            ).contains(Ok((compiled[i], true))),
        !has_windows ==> forall|i: int|
            #![trigger exprs[i]]
            0 <= i < exprs.len() ==> expr_outcomes(
                exprs[i],
                arena,
                context,
                schema,
                allow_threading,
                depth,
            ).contains(Ok((compiled[i], false))),
{
    let windows = choose|windows: Seq<bool>| #[trigger]
        compile_to(exprs, arena, context, schema, allow_threading, depth, compiled, windows)
            && has_windows == windows.contains(true);
    if has_windows {
        let i = choose|i: int| 0 <= i < windows.len() && windows[i] == true;
        assert(expr_answers(exprs[i], arena, context, schema, allow_threading, depth).contains(
            Ok((compiled[i], windows[i])),
        ));
    } else {
        assert forall|i: int| #![trigger exprs[i]] 0 <= i < exprs.len() implies expr_outcomes(
            exprs[i],
            arena,
            context,
            schema,
            allow_threading,
            depth,
        ).contains(Ok((compiled[i], false))) by {
            assert(expr_answers(exprs[i], arena, context, schema, allow_threading, depth).contains(
                Ok((compiled[i], windows[i])),
            ));
            assert(windows[i] == false) by {
                if windows[i] {
                    assert(windows.contains(true));
                }
            }
        }
    }
}

/// A node becomes the executor of its own kind, and none else.
pub proof fn law_kinds_are_kept(
    executor: Executor,
    plan: LogicalTree,
    arena: Arena<AExpr>,
    state: ConversionState,
)
    requires
        plans(executor, plan, arena, state),
    ensures
        executor is Union <==> ir_kind(plan.ir) is Union,
        executor is HConcat <==> ir_kind(plan.ir) is HConcat,
        executor is Slice <==> ir_kind(plan.ir) is Slice,
        executor is Filter <==> ir_kind(plan.ir) is Filter,
        executor is Scan <==> ir_kind(plan.ir) is Scan,
        executor is Projection <==> ir_kind(plan.ir) is Select,
        executor is DataFrame <==> ir_kind(plan.ir) is DataFrameScan,
        executor is Sort <==> ir_kind(plan.ir) is Sort,
        executor is Cache <==> ir_kind(plan.ir) is Cache,
        executor is Unique <==> ir_kind(plan.ir) is Distinct,
        executor is GroupBy <==> ir_kind(plan.ir) is GroupBy,
        executor is Join <==> ir_kind(plan.ir) is Join,
        executor is Stack <==> ir_kind(plan.ir) is HStack,
        executor is Udf <==> ir_kind(plan.ir) is MapFunction,
        executor is ExternalContext <==> ir_kind(plan.ir) is ExtContext,
        executor is ProjectionSimple <==> ir_kind(plan.ir) is SimpleProjection,
        !(ir_kind(plan.ir) is MemorySink),
        !(ir_kind(plan.ir) is FileSink),
        !(ir_kind(plan.ir) is Invalid),
{
}

/// An executor keeps the node that it came of, with all that it only passes on.
pub proof fn law_nodes_are_kept(
    executor: Executor,
    plan: LogicalTree,
    arena: Arena<AExpr>,
    state: ConversionState,
)
    requires
        plans(executor, plan, arena, state),
    ensures
        match executor {
            Executor::Union { node, .. }
            | Executor::HConcat { node, .. }
            | Executor::Scan { node, .. }
            | Executor::Projection { node, .. }
            | Executor::DataFrame { node, .. }
            | Executor::Sort { node, .. }
            | Executor::Unique { node, .. }
            | Executor::GroupBy { node, .. }
            | Executor::Join { node, .. }
            | Executor::Stack { node, .. }
            | Executor::Udf { node, .. }
            | Executor::ProjectionSimple { node, .. } => node == plan.ir,
            Executor::Slice { offset, len, .. } => ir_kind(plan.ir) == (NodeKind::Slice {
                offset,
                len,
            }),
            Executor::Cache { id, count, .. } => ir_kind(plan.ir) == (NodeKind::Cache {
                id,
                cache_hits: count,
            }),
            Executor::Filter { .. } | Executor::ExternalContext { .. } => true,
        },
{
}

/// The inputs of an executor come of the inputs of its node, all of them, in their order; an
/// external context has the last input of its node as its own, and the others as contexts.
pub proof fn law_inputs_keep_their_order(
    irs: Seq<IR>,
    executor: Executor,
    plan: LogicalTree,
    arena: Arena<AExpr>,
    state: ConversionState,
)
    requires
        represents(irs, plan),
        plans(executor, plan, arena, state),
    ensures
        plan.node < irs.len(),
        irs[plan.node as int] == plan.ir,
        plan.inputs.len() == ir_inputs(plan.ir).len(),
        match executor {
            Executor::Union { inputs, .. } | Executor::HConcat { inputs, .. } => {
                &&& inputs@.len() == ir_inputs(plan.ir).len()
                &&& forall|i: int|
                    #![trigger plan.inputs[i]]
                    0 <= i < inputs@.len() ==> plan.inputs[i].node == ir_inputs(plan.ir)[i]
                        && plans(inputs@[i], plan.inputs[i], arena, state)
            },
            Executor::Slice { input, .. }
            | Executor::Filter { input, .. }
            | Executor::Projection { input, .. }
            | Executor::Sort { input, .. }
            | Executor::Cache { input, .. }
            | Executor::Unique { input, .. }
            | Executor::GroupBy { input, .. }
            | Executor::Stack { input, .. }
            | Executor::Udf { input, .. }
            | Executor::ProjectionSimple { input, .. } => {
                &&& ir_inputs(plan.ir).len() == 1
                &&& plan.inputs[0].node == ir_inputs(plan.ir)[0]
                &&& plans(*input, plan.inputs[0], arena, state)
            },
            Executor::Join { input_left, input_right, .. } => {
                &&& ir_inputs(plan.ir).len() == 2
                &&& plan.inputs[0].node == ir_inputs(plan.ir)[0]
                &&& plan.inputs[1].node == ir_inputs(plan.ir)[1]
                &&& plans(*input_left, plan.inputs[0], arena, state)
                &&& plans(*input_right, plan.inputs[1], arena, state)
            },
            Executor::ExternalContext { input, contexts } => {
                &&& contexts@.len() + 1 == ir_inputs(plan.ir).len()
                &&& plan.inputs[0].node == ir_inputs(plan.ir)[contexts@.len() as int]
                &&& plans(*input, plan.inputs[0], arena, state)
                &&& forall|i: int|
                    #![trigger contexts@[i]]
                    0 <= i < contexts@.len() ==> plan.inputs[i + 1].node == ir_inputs(plan.ir)[i]
                        && plans(contexts@[i], plan.inputs[i + 1], arena, state)
            },
            Executor::Scan { .. } | Executor::DataFrame { .. } => true,
        },
{
    let inputs = plan.inputs;
    assert forall|i: int| #![trigger plan.inputs[i]] 0 <= i < plan.inputs.len() implies
        plan.inputs[i].node == looked_inputs(plan.ir, plan.asked)[i] by {}
    match executor {
        Executor::ExternalContext { input, contexts } => {
            assert forall|i: int| #![trigger contexts@[i]] 0 <= i < contexts@.len() implies
                plan.inputs[i + 1].node == ir_inputs(plan.ir)[i] && plans(
                contexts@[i],
                plan.inputs[i + 1],
                arena,
                state,
            ) by {
                let next = plan.inputs[i + 1];
                assert(next.node == looked_inputs(plan.ir, plan.asked)[i + 1]);
                assert(plans(contexts@[i + 1 - 1], next, arena, state));
            }
            assert(plan.inputs[0].node == looked_inputs(plan.ir, plan.asked)[0]);
        },
        _ => {
            if plan.inputs.len() > 0 {
                assert(plan.inputs[0].node == looked_inputs(plan.ir, plan.asked)[0]);
            }
            if plan.inputs.len() > 1 {
                assert(plan.inputs[1].node == looked_inputs(plan.ir, plan.asked)[1]);
            }
        },
    }
}

/// A filter compiles its predicate on a schema of its input, and may work on batches exactly
/// where the predicate works row by row and either no column of that schema, from the first
/// to the last, has a categorical type, or the string cache is on.
pub proof fn law_filters(
    executor: Executor,
    plan: LogicalTree,
    arena: Arena<AExpr>,
    state: ConversionState,
)
    requires
        plans(executor, plan, arena, state),
        ir_kind(plan.ir) is Filter,
    ensures
        executor matches Executor::Filter { predicate, has_windows, streamable, .. } && exists|
            schema: Arc<Schema<DataType>>,
        | #[trigger]
            schema_outcomes(plan.inputs[0]).contains(schema) && expr_outcomes(
                ir_exprs(plan.ir)[0],
                arena,
                ExprContext::Default,
                schema,
                true,
                state.expr_depth,
            ).contains(Ok((predicate, has_windows))) && (streamable ==> elementwise_exprs(
                arena,
            ).contains(expr_node(ir_exprs(plan.ir)[0]))) && ((forall|i: int|
                0 <= i < schema_dtypes(*schema).len() ==> !(#[trigger] is_categorical(
                    schema_dtypes(*schema)[i],
                ))) ==> streamable == elementwise_exprs(arena).contains(
                expr_node(ir_exprs(plan.ir)[0]),
            )) && (state.string_cache matches Setting::Given(on) ==> if on {
                streamable == elementwise_exprs(arena).contains(expr_node(ir_exprs(plan.ir)[0]))
            } else {
                streamable ==> forall|i: int|
                    0 <= i < schema_dtypes(*schema).len() ==> !(#[trigger] is_categorical(
                        schema_dtypes(*schema)[i],
                    ))
            }),
{
    match executor {
        Executor::Filter { predicate, has_windows, streamable, .. } => {
            let expr = ir_exprs(plan.ir)[0];
            let schema = choose|schema: Arc<Schema<DataType>>| #[trigger]
                schema_answers(plan.inputs[0]).contains(schema) && expr_answers(
                    expr,
                    arena,
                    ExprContext::Default,
                    schema,
                    true,
                    state.expr_depth,
                ).contains(Ok((predicate, has_windows))) && may_stream(
                    streamable,
                    elementwise_exprs(arena).contains(expr_node(expr)),
                    has_categoricals(*schema),
                    state.string_cache,
                );
            assert(schema_outcomes(plan.inputs[0]).contains(schema));
        },
        _ => {},
    }
}

/// Where every schema of its input has a categorical type at some place, the first one
/// counting too, and the string cache is off, a filter works on all rows at once. Where none
/// has, and the predicate works row by row, it works on batches.
pub proof fn law_categoricals_at_any_place(
    executor: Executor,
    plan: LogicalTree,
    arena: Arena<AExpr>,
    state: ConversionState,
    place: int,
)
    requires
        plans(executor, plan, arena, state),
        ir_kind(plan.ir) is Filter,
    ensures
        executor matches Executor::Filter { streamable, .. } && (state.string_cache
            == Setting::Given(false) && (forall|schema: Arc<Schema<DataType>>| #[trigger]
            schema_outcomes(plan.inputs[0]).contains(schema) ==> 0 <= place < schema_dtypes(
                *schema,
            ).len() && is_categorical(schema_dtypes(*schema)[place])) ==> !streamable) && (
        elementwise_exprs(arena).contains(expr_node(ir_exprs(plan.ir)[0])) && (forall|
            schema: Arc<Schema<DataType>>,
            i: int,
        |
            #![trigger schema_outcomes(plan.inputs[0]).contains(schema), is_categorical(schema_dtypes(*schema)[i])]
            schema_outcomes(plan.inputs[0]).contains(schema) && 0 <= i < schema_dtypes(*schema).len()
                ==> !is_categorical(schema_dtypes(*schema)[i])) ==> streamable),
{
    law_filters(executor, plan, arena, state);
}

/// A scan reads the rows that its own node asks for, unless a fetch says how many; the offset
/// is that of the node, or the first row. It reads all rows exactly where neither asks for
/// some.
pub proof fn law_rows_of_scans(
    executor: Executor,
    plan: LogicalTree,
    arena: Arena<AExpr>,
    state: ConversionState,
)
    requires
        plans(executor, plan, arena, state),
    ensures
        ir_kind(plan.ir) is Scan ==> executor is Scan,
        ir_kind(plan.ir) matches NodeKind::Scan { slice: own, .. } ==> {
            let slice = executor->Scan_slice;
            &&& state.fetch_rows == Setting::Given(None::<usize>) ==> slice == own
            &&& state.fetch_rows matches Setting::Given(Some(rows)) ==> slice is Some
                && slice.unwrap().1 == rows
            &&& own matches Some((offset, _)) ==> slice is Some && slice.unwrap().0 == offset
            &&& own is None && slice is Some ==> slice.unwrap().0 == 0
        },
{
}

/// A scan of files is read by the reader of its format, and one of several files by the
/// reader for several files where that is on; a function of the user's is never left out.
pub proof fn law_readers_of_scans(
    executor: Executor,
    plan: LogicalTree,
    arena: Arena<AExpr>,
    state: ConversionState,
)
    requires
        plans(executor, plan, arena, state),
    ensures
        ir_kind(plan.ir) matches NodeKind::Scan { format, sources, .. } ==> {
            let reader = executor->Scan_reader;
            &&& executor is Scan
            &&& format == ScanFormat::Anonymous <==> reader == Reader::Anonymous
            &&& reader == Reader::MultiScan <==> state.multi_file && sources >= 2 && format
                != ScanFormat::Anonymous
            &&& !state.multi_file || sources <= 1 ==> {
                &&& format == ScanFormat::Csv <==> reader == Reader::Csv
                &&& format == ScanFormat::Ipc <==> reader == Reader::Ipc
                &&& format == ScanFormat::Parquet <==> reader == Reader::Parquet
                &&& format == ScanFormat::NdJson <==> reader == Reader::Json
            }
        },
{
}

/// A scan compiles the predicate of its node on the schema of the files, and has none where
/// the node has none.
pub proof fn law_predicates_of_scans(
    executor: Executor,
    plan: LogicalTree,
    arena: Arena<AExpr>,
    state: ConversionState,
)
    requires
        plans(executor, plan, arena, state),
        ir_kind(plan.ir) is Scan,
    ensures
        executor matches Executor::Scan { predicate, predicate_has_windows, .. } && match predicate {
            Some(compiled) => ir_exprs(plan.ir).len() > 0 && expr_outcomes(
                ir_exprs(plan.ir)[0],
                arena,
                ExprContext::Default,
                ir_scan_schema(plan.ir),
                true,
                state.expr_depth,
            ).contains(Ok((compiled, predicate_has_windows))),
            None => ir_exprs(plan.ir).len() == 0 && !predicate_has_windows,
        },
{
}

/// A scan of a frame reads the columns that its node names, and all where it names none.
pub proof fn law_columns_of_frames(
    executor: Executor,
    plan: LogicalTree,
    arena: Arena<AExpr>,
    state: ConversionState,
)
    requires
        plans(executor, plan, arena, state),
        ir_kind(plan.ir) is DataFrameScan,
    ensures
        executor matches Executor::DataFrame { projection, .. } && match ir_projection(plan.ir) {
            Some(names) => projection is Some && projection.unwrap()@.len() == names.len()
                && forall|i: int|
                #![trigger names[i]]
                0 <= i < names.len() ==> projection.unwrap()@[i]@ == names[i],
            None => projection is None,
        },
{
    match executor {
        Executor::DataFrame { projection: Some(columns), .. } => {
            let views = columns@.map_values(|name: String| name@);
            assert forall|i: int| 0 <= i < views.len() implies views[i] == columns@[i]@ by {}
        },
        _ => {},
    }
}

/// A projection compiles every expression on a schema of its input, over threads where there
/// are more of them than expressions. It works on parts of the rows exactly where
/// broadcasting is on, every expression from the first to the last works row by row, and
/// some compiled expression is no literal.
pub proof fn law_projections(
    executor: Executor,
    plan: LogicalTree,
    arena: Arena<AExpr>,
    state: ConversionState,
)
    requires
        plans(executor, plan, arena, state),
    ensures
        ir_kind(plan.ir) matches NodeKind::Select { should_broadcast } ==> {
            let exprs = ir_exprs(plan.ir);
            &&& executor matches Executor::Projection {
                exprs: compiled,
                has_windows,
                input_schema,
                allow_vertical_parallelism,
                ..
            }
            &&& schema_outcomes(plan.inputs[0]).contains(input_schema)
            &&& compiled@.len() == exprs.len()
            &&& forall|i: int|
                #![trigger exprs[i]]
                0 <= i < exprs.len() ==> {
                    let outcomes = expr_outcomes(
                        exprs[i],
                        arena,
                        ExprContext::Default,
                        input_schema,
                        state.threads > exprs.len(),
                        state.expr_depth,
                    );
                    outcomes.contains(Ok((compiled@[i], true))) || outcomes.contains(
                        Ok((compiled@[i], false)),
                    )
                }
            &&& allow_vertical_parallelism <==> {
                &&& should_broadcast
                &&& forall|i: int|
                    #![trigger exprs[i]]
                    0 <= i < exprs.len() ==> elementwise_exprs(arena).contains(expr_node(exprs[i]))
                &&& exists|i: int|
                    0 <= i < compiled@.len() && !(#[trigger] is_literal_expr(compiled@[i]))
            }
        },
{
    match executor {
        Executor::Projection { exprs: compiled, has_windows, input_schema, .. } => {
            lemma_into_is_as(
                ir_exprs(plan.ir),
                arena,
                input_schema,
                state.threads > ir_exprs(plan.ir).len(),
                state.expr_depth,
                compiled@,
                has_windows,
            );
        },
        _ => {},
    }
}

/// Added columns are compiled like a projection. They are computed on parts of the rows
/// exactly where broadcasting is on and every expression, from the first to the last, works
/// row by row.
pub proof fn law_added_columns(
    executor: Executor,
    plan: LogicalTree,
    arena: Arena<AExpr>,
    state: ConversionState,
)
    requires
        plans(executor, plan, arena, state),
    ensures
        ir_kind(plan.ir) matches NodeKind::HStack { should_broadcast } ==> {
            let exprs = ir_exprs(plan.ir);
            &&& executor matches Executor::Stack {
                exprs: compiled,
                has_windows,
                input_schema,
                allow_vertical_parallelism,
                ..
            }
            &&& schema_outcomes(plan.inputs[0]).contains(input_schema)
            &&& compiled@.len() == exprs.len()
            &&& forall|i: int|
                #![trigger exprs[i]]
                0 <= i < exprs.len() ==> {
                    let outcomes = expr_outcomes(
                        exprs[i],
                        arena,
                        ExprContext::Default,
                        input_schema,
                        state.threads > exprs.len(),
                        state.expr_depth,
                    );
                    outcomes.contains(Ok((compiled@[i], true))) || outcomes.contains(
                        Ok((compiled@[i], false)),
                    )
                }
            &&& allow_vertical_parallelism <==> {
                &&& should_broadcast
                &&& forall|i: int|
                    #![trigger exprs[i]]
                    0 <= i < exprs.len() ==> elementwise_exprs(arena).contains(expr_node(exprs[i]))
            }
        },
{
    match executor {
        Executor::Stack { exprs: compiled, has_windows, input_schema, .. } => {
            lemma_into_is_as(
                ir_exprs(plan.ir),
                arena,
                input_schema,
                state.threads > ir_exprs(plan.ir).len(),
                state.expr_depth,
                compiled@,
                has_windows,
            );
        },
        _ => {},
    }
}

proof fn lemma_into_is_as(
    exprs: Seq<ExprIR>,
    arena: Arena<AExpr>,
    schema: Arc<Schema<DataType>>,
    allow_threading: bool,
    depth: u16,
    compiled: Seq<PhysicalIoHelper>,
    has_windows: bool,
)
    requires
        compile_into(
            exprs,
            arena,
            ExprContext::Default,
            schema,
            allow_threading,
            depth,
            compiled,
            has_windows,
        ),
    ensures
        compiled.len() == exprs.len(),
        forall|i: int|
            #![trigger exprs[i]]
            0 <= i < exprs.len() ==> {
                let outcomes = expr_outcomes(
                    exprs[i],
                    arena,
                    ExprContext::Default,
                    schema,
                    allow_threading,
                    depth,
                );
                outcomes.contains(Ok((compiled[i], true))) || outcomes.contains(
                    Ok((compiled[i], false)),
                )
            },
{
    let context = ExprContext::Default;
    assert(compile_as(exprs, arena, context, schema, allow_threading, depth, compiled));
    law_compiled_one_by_one(exprs, arena, context, schema, allow_threading, depth, compiled);
}

/// A projection and added columns hold a window function exactly where polars found one in
/// some of their expressions.
pub proof fn law_windows_of_columns(
    executor: Executor,
    plan: LogicalTree,
    arena: Arena<AExpr>,
    state: ConversionState,
)
    requires
        plans(executor, plan, arena, state),
    ensures
        match executor {
            Executor::Projection { exprs: compiled, has_windows, input_schema, .. }
            | Executor::Stack { exprs: compiled, has_windows, input_schema, .. } => {
                let exprs = ir_exprs(plan.ir);
                &&& has_windows ==> exists|i: int|
                    #![trigger exprs[i]]
                    0 <= i < exprs.len() && expr_outcomes(
                        exprs[i],
                        arena,
                        ExprContext::Default,
                        input_schema,
                        state.threads > exprs.len(),
                        state.expr_depth,
                    ).contains(Ok((compiled@[i], true)))
                &&& !has_windows ==> forall|i: int|
                    #![trigger exprs[i]]
                    0 <= i < exprs.len() ==> expr_outcomes(
                        exprs[i],
                        arena,
                        ExprContext::Default,
                        input_schema,
                        state.threads > exprs.len(),
                        state.expr_depth,
                    ).contains(Ok((compiled@[i], false)))
            },
            _ => true,
        },
{
    match executor {
        Executor::Projection { exprs: compiled, has_windows, input_schema, .. }
        | Executor::Stack { exprs: compiled, has_windows, input_schema, .. } => {
            law_windows_are_noticed(
                ir_exprs(plan.ir),
                arena,
                ExprContext::Default,
                input_schema,
                state.threads > ir_exprs(plan.ir).len(),
                state.expr_depth,
                compiled@,
                has_windows,
            );
        },
        _ => {},
    }
}

/// A sort compiles every expression that it sorts by, in order, on a schema of its input.
pub proof fn law_sorts(
    executor: Executor,
    plan: LogicalTree,
    arena: Arena<AExpr>,
    state: ConversionState,
)
    requires
        plans(executor, plan, arena, state),
        ir_kind(plan.ir) is Sort,
    ensures
        executor matches Executor::Sort { by_column, .. } && by_column@.len() == ir_exprs(
            plan.ir,
        ).len() && exists|schema: Arc<Schema<DataType>>| #[trigger]
            schema_outcomes(plan.inputs[0]).contains(schema) && forall|i: int|
                #![trigger by_column@[i]]
                0 <= i < by_column@.len() ==> {
                    let outcomes = expr_outcomes(
                        ir_exprs(plan.ir)[i],
                        arena,
                        ExprContext::Default,
                        schema,
                        true,
                        state.expr_depth,
                    );
                    outcomes.contains(Ok((by_column@[i], true))) || outcomes.contains(
                        Ok((by_column@[i], false)),
                    )
                },
{
    match executor {
        Executor::Sort { by_column, .. } => {
            let exprs = ir_exprs(plan.ir);
            let context = ExprContext::Default;
            let depth = state.expr_depth;
            let schema = choose|schema: Arc<Schema<DataType>>| #[trigger]
                schema_answers(plan.inputs[0]).contains(schema) && compile_as(
                    exprs,
                    arena,
                    context,
                    schema,
                    true,
                    depth,
                    by_column@,
                );
            law_compiled_one_by_one(exprs, arena, context, schema, true, depth, by_column@);
            assert(schema_outcomes(plan.inputs[0]).contains(schema));
        },
        _ => {},
    }
}

/// The answer on partitions, for keys that stand in the arena where they are looked at: a
/// group-by can work on partitions exactly where it has one key or two, each of them a node
/// without any input and no literal series, no function of the user's works on the groups,
/// and polars can split the aggregations.
pub proof fn law_partitions(
    keys: Seq<ExprIR>,
    aggs: Seq<ExprIR>,
    schema: Arc<Schema<DataType>>,
    arena: Arena<AExpr>,
    has_apply: bool,
    answer: bool,
)
    requires
        may_partition(keys, aggs, schema, arena, has_apply, answer),
        0 < keys.len() < 3 && !has_apply ==> forall|i: int|
            #![trigger keys[i]]
            0 <= i < keys.len() ==> stands(keys[i], arena),
    ensures
        answer <==> {
            &&& keys.len() == 1 || keys.len() == 2
            &&& !has_apply
            &&& forall|i: int|
                #![trigger keys[i]]
                0 <= i < keys.len() ==> expr_nodes(arena)[expr_node(keys[i]) as int].inputs.len()
                    == 0 && !expr_nodes(arena)[expr_node(keys[i]) as int].literal_series
            &&& pre_agg_answer(aggs, arena, schema) == Some(true)
        },
{
    assert forall|i: int|
        #![trigger keys[i]]
        0 <= i < keys.len() && stands(keys[i], arena) implies (size(
        expr_shape(keys[i], arena),
    ) <= 1 && !has_literal_series(expr_nodes(arena), expr_shape(keys[i], arena)) <==> expr_nodes(
        arena,
    )[expr_node(keys[i]) as int].inputs.len() == 0 && !expr_nodes(
        arena,
    )[expr_node(keys[i]) as int].literal_series) by {
        law_single_nodes(keys[i], arena);
    }
    if answer {
        assert(keys_are_simple(keys, arena, has_apply));
    }
}

/// How a group-by forms its groups. Windows come first, dynamic ones before rolling ones;
/// with neither, it works on partitions exactly where it has one key or two, each a node
/// without any input and no literal series, no function of the user's, and aggregations that
/// polars can split; and otherwise on all rows.
pub proof fn law_groupings(
    executor: Executor,
    plan: LogicalTree,
    arena: Arena<AExpr>,
    state: ConversionState,
)
    requires
        plans(executor, plan, arena, state),
        ready(plan, arena, state),
    ensures
        ir_kind(plan.ir) matches NodeKind::GroupBy { keys: count, has_apply, dynamic, rolling } ==> {
            let exprs = ir_exprs(plan.ir);
            count <= exprs.len() ==> {
                &&& executor matches Executor::GroupBy { grouping, input_schema, .. }
                &&& grouping is Dynamic <==> dynamic
                &&& grouping is Rolling <==> rolling && !dynamic
                &&& grouping is Partitioned <==> {
                    &&& !dynamic
                    &&& !rolling
                    &&& !has_apply
                    &&& count == 1 || count == 2
                    &&& forall|i: int|
                        #![trigger exprs[i]]
                        0 <= i < count ==> expr_nodes(
                            arena,
                        )[expr_node(exprs[i]) as int].inputs.len() == 0 && !expr_nodes(
                            arena,
                        )[expr_node(exprs[i]) as int].literal_series
                    &&& pre_agg_answer(
                        exprs.subrange(count as int, exprs.len() as int),
                        arena,
                        input_schema,
                    ) == Some(true)
                }
            }
        },
{
    match (ir_kind(plan.ir), executor) {
        (
            NodeKind::GroupBy { keys: count, has_apply, dynamic, rolling },
            Executor::GroupBy { grouping, input_schema, .. },
        ) => {
            let exprs = ir_exprs(plan.ir);
            let keys = first_exprs(plan.ir);
            let aggs = other_exprs(plan.ir);
            if count <= exprs.len() {
                assert(aggs =~= exprs.subrange(count as int, exprs.len() as int));
                assert forall|i: int| #![trigger keys[i]] 0 <= i < keys.len() implies stands(
                    keys[i],
                    arena,
                ) by {
                    assert(exprs[i] == keys[i]);
                }
                if !dynamic && !rolling {
                    assert(may_partition(
                        keys,
                        aggs,
                        input_schema,
                        arena,
                        has_apply,
                        grouping is Partitioned,
                    ));
                    law_partitions(
                        keys,
                        aggs,
                        input_schema,
                        arena,
                        has_apply,
                        grouping is Partitioned,
                    );
                    assert forall|i: int| #![trigger exprs[i]] 0 <= i < count implies exprs[i]
                        == keys[i] by {}
                    assert(keys.len() == count);
                }
            }
        },
        _ => {},
    }
}

/// What a group-by on partitions keeps for putting the parts together: the forms of its keys
/// and of its aggregations, in order, and whether a union that reads a partitioned dataset is
/// anywhere below.
pub proof fn law_partitioned_groups(
    irs: Seq<IR>,
    executor: Executor,
    plan: LogicalTree,
    arena: Arena<AExpr>,
    state: ConversionState,
)
    requires
        represents(irs, plan),
        plans(executor, plan, arena, state),
    ensures
        executor matches Executor::GroupBy {
            grouping: Grouping::Partitioned { from_partitioned_ds, keys, aggs },
            ..
        } ==> {
            let exprs = ir_exprs(plan.ir);
            &&& keys@.len() + aggs@.len() == exprs.len()
            &&& ir_kind(plan.ir) matches NodeKind::GroupBy { keys: count, .. } && keys@.len() == count
            &&& forall|i: int|
                #![trigger keys@[i]]
                0 <= i < keys@.len() ==> keys@[i] == expr_form(exprs[i], arena)
            &&& forall|i: int|
                #![trigger aggs@[i]]
                0 <= i < aggs@.len() ==> aggs@[i] == expr_form(exprs[keys@.len() + i], arena)
            &&& from_partitioned_ds <==> exists|n: usize| #[trigger]
                has_node(plan.inputs[0], n) && ir_kind(irs[n as int]) == (NodeKind::Union {
                    from_partitioned_ds: true,
                })
        },
{
    match executor {
        Executor::GroupBy { grouping: Grouping::Partitioned { keys, aggs, .. }, .. } => {
            law_partitioned_datasets(irs, plan.inputs[0]);
        },
        _ => {},
    }
}

/// A group-by compiles its keys on the columns and its aggregations on the groups, each in
/// order, on a schema of its input.
pub proof fn law_keys_and_aggregations(
    irs: Seq<IR>,
    executor: Executor,
    plan: LogicalTree,
    arena: Arena<AExpr>,
    state: ConversionState,
)
    requires
        represents(irs, plan),
        plans(executor, plan, arena, state),
        ir_kind(plan.ir) is GroupBy,
    ensures
        executor matches Executor::GroupBy { keys, aggs, input_schema, .. } && {
            let exprs = ir_exprs(plan.ir);
            &&& schema_outcomes(plan.inputs[0]).contains(input_schema)
            &&& ir_kind(plan.ir) matches NodeKind::GroupBy { keys: count, .. } && keys@.len() == count
            &&& keys@.len() + aggs@.len() == exprs.len()
            &&& forall|i: int|
                #![trigger keys@[i]]
                0 <= i < keys@.len() ==> {
                    let outcomes = expr_outcomes(
                        exprs[i],
                        arena,
                        ExprContext::Default,
                        input_schema,
                        true,
                        state.expr_depth,
                    );
                    outcomes.contains(Ok((keys@[i], true))) || outcomes.contains(
                        Ok((keys@[i], false)),
                    )
                }
            &&& forall|i: int|
                #![trigger aggs@[i]]
                0 <= i < aggs@.len() ==> {
                    let outcomes = expr_outcomes(
                        exprs[keys@.len() + i],
                        arena,
                        ExprContext::Aggregation,
                        input_schema,
                        true,
                        state.expr_depth,
                    );
                    outcomes.contains(Ok((aggs@[i], true))) || outcomes.contains(
                        Ok((aggs@[i], false)),
                    )
                }
        },
{
    match executor {
        Executor::GroupBy { keys, aggs, input_schema, .. } => {
            let first = first_exprs(plan.ir);
            let other = other_exprs(plan.ir);
            let depth = state.expr_depth;
            law_compiled_one_by_one(
                first,
                arena,
                ExprContext::Default,
                input_schema,
                true,
                depth,
                keys@,
            );
            law_compiled_one_by_one(
                other,
                arena,
                ExprContext::Aggregation,
                input_schema,
                true,
                depth,
                aggs@,
            );
            assert forall|i: int| #![trigger keys@[i]] 0 <= i < keys@.len() implies first[i]
                == ir_exprs(plan.ir)[i] by {}
            assert forall|i: int| #![trigger aggs@[i]] 0 <= i < aggs@.len() implies other[i]
                == ir_exprs(plan.ir)[keys@.len() + i] by {}
        },
        _ => {},
    }
}

/// The sides of a join run in parallel where that is forced. Otherwise they do exactly where
/// it is allowed and no scan on the left, of whatever format, has a file in common with a
/// scan on the right.
pub proof fn law_parallel_joins(
    irs: Seq<IR>,
    executor: Executor,
    plan: LogicalTree,
    arena: Arena<AExpr>,
    state: ConversionState,
)
    requires
        represents(irs, plan),
        plans(executor, plan, arena, state),
    ensures
        ir_kind(plan.ir) matches NodeKind::Join { force_parallel, allow_parallel, .. } ==> {
            &&& executor matches Executor::Join { parallel, .. }
            &&& force_parallel ==> parallel
            &&& !force_parallel ==> (parallel <==> allow_parallel && forall|
                m: usize,
                n: usize,
                path: int,
            |
                #![trigger has_node(plan.inputs[0], m), has_node(plan.inputs[1], n), ir_paths(irs[m as int]).contains(path)]
                has_node(plan.inputs[0], m) && ir_kind(irs[m as int]) is Scan && ir_paths(
                    irs[m as int],
                ).contains(path) && has_node(plan.inputs[1], n) && ir_kind(irs[n as int]) is Scan
                    ==> !ir_paths(irs[n as int]).contains(path))
        },
{
    if ir_kind(plan.ir) is Join {
        law_shared_sources(irs, plan.inputs[0], plan.inputs[1]);
    }
}

/// A join compiles the expressions of its left side on a schema of its left input, those of
/// its right side on one of its right input, each in order, and its cross filter, where the
/// node has one, on the schema of the joined rows.
pub proof fn law_join_columns(
    irs: Seq<IR>,
    executor: Executor,
    plan: LogicalTree,
    arena: Arena<AExpr>,
    state: ConversionState,
)
    requires
        represents(irs, plan),
        plans(executor, plan, arena, state),
        ir_kind(plan.ir) is Join,
    ensures
        executor matches Executor::Join { left_on, right_on, cross_filter, .. } && {
            let exprs = ir_exprs(plan.ir);
            &&& ir_kind(plan.ir) matches NodeKind::Join { left_on: count, .. } && left_on@.len()
                == count
            &&& left_on@.len() + right_on@.len() == exprs.len()
            &&& exists|schema: Arc<Schema<DataType>>| #[trigger]
                schema_outcomes(plan.inputs[0]).contains(schema) && forall|i: int|
                    #![trigger left_on@[i]]
                    0 <= i < left_on@.len() ==> {
                        let outcomes = expr_outcomes(
                            exprs[i],
                            arena,
                            ExprContext::Default,
                            schema,
                            true,
                            state.expr_depth,
                        );
                        outcomes.contains(Ok((left_on@[i], true))) || outcomes.contains(
                            Ok((left_on@[i], false)),
                        )
                    }
            &&& exists|schema: Arc<Schema<DataType>>| #[trigger]
                schema_outcomes(plan.inputs[1]).contains(schema) && forall|i: int|
                    #![trigger right_on@[i]]
                    0 <= i < right_on@.len() ==> {
                        let outcomes = expr_outcomes(
                            exprs[left_on@.len() + i],
                            arena,
                            ExprContext::Default,
                            schema,
                            true,
                            state.expr_depth,
                        );
                        outcomes.contains(Ok((right_on@[i], true))) || outcomes.contains(
                            Ok((right_on@[i], false)),
                        )
                    }
            &&& match ir_cross_filter(plan.ir) {
                Some((predicate, schema)) => cross_filter is Some && {
                    let outcomes = expr_outcomes(
                        predicate,
                        arena,
                        ExprContext::Default,
                        schema,
                        false,
                        state.expr_depth,
                    );
                    outcomes.contains(Ok((cross_filter.unwrap(), true))) || outcomes.contains(
                        Ok((cross_filter.unwrap(), false)),
                    )
                },
                None => cross_filter is None,
            }
        },
{
    match executor {
        Executor::Join { left_on, right_on, .. } => {
            let first = first_exprs(plan.ir);
            let other = other_exprs(plan.ir);
            let context = ExprContext::Default;
            let depth = state.expr_depth;
            let left = choose|schema: Arc<Schema<DataType>>| #[trigger]
                schema_answers(plan.inputs[0]).contains(schema) && compile_as(
                    first,
                    arena,
                    context,
                    schema,
                    true,
                    depth,
                    left_on@,
                );
            let right = choose|schema: Arc<Schema<DataType>>| #[trigger]
                schema_answers(plan.inputs[1]).contains(schema) && compile_as(
                    other,
                    arena,
                    context,
                    schema,
                    true,
                    depth,
                    right_on@,
                );
            law_compiled_one_by_one(first, arena, context, left, true, depth, left_on@);
            law_compiled_one_by_one(other, arena, context, right, true, depth, right_on@);
            assert forall|i: int| #![trigger left_on@[i]] 0 <= i < left_on@.len() implies first[i]
                == ir_exprs(plan.ir)[i] by {}
            assert forall|i: int| #![trigger right_on@[i]] 0 <= i < right_on@.len() implies other[i]
                == ir_exprs(plan.ir)[left_on@.len() + i] by {}
            assert(schema_outcomes(plan.inputs[0]).contains(left));
            assert(schema_outcomes(plan.inputs[1]).contains(right));
        },
        _ => {},
    }
}

} // verus!
