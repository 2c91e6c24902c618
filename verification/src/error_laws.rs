//! Where the errors of planning come from, said of what polars' own values hold.
use crate::expression::{
    compile_as, compile_to, expr_answers, expr_outcomes, may_compile, may_fail, ExprContext,
};
use crate::logical::{
    halts, has_node, ir_cross_filter, ir_exprs, ir_file_type, ir_inputs, ir_kind, ir_scan_schema,
    represents, schema_answers, schema_outcomes, shape_fits, LogicalTree, NodeKind,
};
use crate::order::{order, orders, taken};
use crate::physical::{
    expr_fails, exprs_fail, fails, first_exprs, inputs_fail, other_exprs, plannable, Executor,
};
use crate::plan_laws::law_sinks_halt;
use crate::planner::may_result;
use crate::planner_laws::law_sinks_are_refused;
use crate::state::{ConversionState, PlanError};
use polars_core::error::PolarsError;
use polars_core::prelude::DataType;
use polars_expr::prelude::PhysicalIoHelper;
use polars_plan::prelude::expr_ir::ExprIR;
use polars_plan::prelude::{AExpr, Arena, IR};
use polars_schema::Schema;
use std::sync::Arc;
use vstd::prelude::*;

verus! {

/// Whether polars may make something of an expression.
pub open spec fn may_become(
    expr: ExprIR,
    arena: Arena<AExpr>,
    context: ExprContext,
    schema: Arc<Schema<DataType>>,
    allow_threading: bool,
    depth: u16,
) -> bool {
    exists|compiled: PhysicalIoHelper, has_windows: bool| #[trigger]
        expr_outcomes(expr, arena, context, schema, allow_threading, depth).contains(
            Ok((compiled, has_windows)),
        )
}

/// Whether polars may make something of each expression in a stretch.
pub open spec fn may_all_become(
    exprs: Seq<ExprIR>,
    from: int,
    to: int,
    arena: Arena<AExpr>,
    context: ExprContext,
    schema: Arc<Schema<DataType>>,
    allow_threading: bool,
    depth: u16,
) -> bool {
    forall|k: int|
        #![trigger exprs[k]]
        from <= k < to ==> may_become(exprs[k], arena, context, schema, allow_threading, depth)
}

/// Whether an error may be that of an expression in a stretch, where polars may make
/// something of each one before it.
pub open spec fn first_failure(
    error: PlanError,
    exprs: Seq<ExprIR>,
    from: int,
    to: int,
    arena: Arena<AExpr>,
    context: ExprContext,
    schema: Arc<Schema<DataType>>,
    allow_threading: bool,
    depth: u16,
) -> bool {
    error matches PlanError::Expression { source } && exists|k: int|
        #![trigger exprs[k]]
        from <= k < to && expr_outcomes(
            exprs[k],
            arena,
            context,
            schema,
            allow_threading,
            depth,
        ).contains(Err(source)) && may_all_become(
            exprs,
            from,
            k,
            arena,
            context,
            schema,
            allow_threading,
            depth,
        )
}

/// Whether an error, after so many nodes, may be that of an input of a plan: the root and the
/// inputs before that one have been taken, and these may have executors.
pub open spec fn is_of_an_input(
    error: PlanError,
    count: int,
    plan: LogicalTree,
    arena: Arena<AExpr>,
    state: ConversionState,
) -> bool {
    exists|i: int, below: int|
        #![trigger fails(error, below, plan.inputs[i], arena, state)]
        0 <= i < plan.inputs.len() && fails(error, below, plan.inputs[i], arena, state) && count
            == below + order(
            (LogicalTree {
                node: plan.node,
                ir: plan.ir,
                asked: plan.asked,
                inputs: plan.inputs.take(i),
            }),
        ).len() && forall|j: int|
            #![trigger plan.inputs[j]]
            0 <= j < i ==> plannable(plan.inputs[j], arena, state)
}

proof fn lemma_compiled_become(
    exprs: Seq<ExprIR>,
    arena: Arena<AExpr>,
    context: ExprContext,
    schema: Arc<Schema<DataType>>,
    allow_threading: bool,
    depth: u16,
)
    requires
        may_compile(exprs, arena, context, schema, allow_threading, depth),
    ensures
        may_all_become(
            exprs,
            0,
            exprs.len() as int,
            arena,
            context,
            schema,
            allow_threading,
            depth,
        ),
{
    let compiled = choose|compiled: Seq<PhysicalIoHelper>| #[trigger]
        compile_as(exprs, arena, context, schema, allow_threading, depth, compiled);
    let windows = choose|windows: Seq<bool>| #[trigger]
        compile_to(exprs, arena, context, schema, allow_threading, depth, compiled, windows);
    assert forall|k: int| #![trigger exprs[k]] 0 <= k < exprs.len() implies may_become(
        exprs[k],
        arena,
        context,
        schema,
        allow_threading,
        depth,
    ) by {
        assert(expr_answers(exprs[k], arena, context, schema, allow_threading, depth).contains(
            Ok((compiled[k], windows[k])),
        ));
        assert(expr_outcomes(exprs[k], arena, context, schema, allow_threading, depth).contains(
            Ok((compiled[k], windows[k])),
        ));
    }
}

/// The failure of some of a node's expressions, those from `from` on.
proof fn lemma_first_failure(
    error: PlanError,
    some: Seq<ExprIR>,
    exprs: Seq<ExprIR>,
    from: int,
    arena: Arena<AExpr>,
    context: ExprContext,
    schema: Arc<Schema<DataType>>,
    allow_threading: bool,
    depth: u16,
)
    requires
        exprs_fail(error, some, arena, context, schema, allow_threading, depth),
        0 <= from <= from + some.len() <= exprs.len(),
        some == exprs.subrange(from, from + some.len()),
    ensures
        first_failure(
            error,
            exprs,
            from,
            from + some.len(),
            arena,
            context,
            schema,
            allow_threading,
            depth,
        ),
{
    match error {
        PlanError::Expression { source } => {
            assert(may_fail(some, arena, context, schema, allow_threading, depth, source));
            let k = choose|k: int|
                #![trigger some[k]]
                0 <= k < some.len() && expr_answers(
                    some[k],
                    arena,
                    context,
                    schema,
                    allow_threading,
                    depth,
                ).contains(Err(source)) && may_compile(
                    some.take(k),
                    arena,
                    context,
                    schema,
                    allow_threading,
                    depth,
                );
            let before = some.take(k);
            lemma_compiled_become(before, arena, context, schema, allow_threading, depth);
            assert forall|j: int| #![trigger exprs[j]] from <= j < from + k implies may_become(
                exprs[j],
                arena,
                context,
                schema,
                allow_threading,
                depth,
            ) by {
                assert(before[j - from] == exprs[j]);
            }
            assert(exprs[from + k] == some[k]);
        },
        _ => {},
    }
}

proof fn lemma_stretch_becomes(
    some: Seq<ExprIR>,
    exprs: Seq<ExprIR>,
    from: int,
    arena: Arena<AExpr>,
    context: ExprContext,
    schema: Arc<Schema<DataType>>,
    depth: u16,
)
    requires
        may_compile(some, arena, context, schema, true, depth),
        0 <= from <= from + some.len() <= exprs.len(),
        some == exprs.subrange(from, from + some.len()),
    ensures
        may_all_become(exprs, from, from + some.len(), arena, context, schema, true, depth),
{
    lemma_compiled_become(some, arena, context, schema, true, depth);
    assert forall|j: int| #![trigger exprs[j]] from <= j < from + some.len() implies may_become(
        exprs[j],
        arena,
        context,
        schema,
        true,
        depth,
    ) by {
        assert(some[j - from] == exprs[j]);
    }
}

proof fn lemma_input_error(
    error: PlanError,
    count: int,
    plan: LogicalTree,
    arena: Arena<AExpr>,
    state: ConversionState,
)
    requires
        inputs_fail(error, count - 1, plan, arena, state),
    ensures
        is_of_an_input(error, count, plan, arena, state),
{
    let i = choose|i: int|
        #![trigger plan.inputs[i]]
        0 <= i < plan.inputs.len() && fails(
            error,
            count - 1 - orders(plan.inputs.subrange(0, i)).len(),
            plan.inputs[i],
            arena,
            state,
        ) && forall|j: int|
            #![trigger plan.inputs[j]]
            0 <= j < i ==> plannable(plan.inputs[j], arena, state);
    let below = count - 1 - orders(plan.inputs.subrange(0, i)).len();
    let part = LogicalTree {
        node: plan.node,
        ir: plan.ir,
        asked: plan.asked,
        inputs: plan.inputs.take(i),
    };
    assert(plan.inputs.take(i) =~= plan.inputs.subrange(0, i));
    assert(order(part).len() == 1 + orders(part.inputs).len());
    assert(fails(error, below, plan.inputs[i], arena, state));
}

/// Where an error of planning arises, and how many nodes have been taken by then.
///
/// A sink gives its own error at once. A node without expressions passes on the error of an
/// input. A filter, a projection, added columns and a join fail by an expression of their own
/// only after all their inputs have been planned, and a sort and a group-by before any input
/// is; a scan has none. Expressions are compiled in order: those of the left side of a join
/// before those of the right side and before the cross filter, and the keys of a group-by
/// before its aggregations.
pub proof fn law_errors_are_located(
    irs: Seq<IR>,
    error: PlanError,
    count: int,
    plan: LogicalTree,
    arena: Arena<AExpr>,
    state: ConversionState,
)
    requires
        represents(irs, plan),
        fails(error, count, plan, arena, state),
    ensures
        ({
            let exprs = ir_exprs(plan.ir);
            let len = exprs.len() as int;
            let depth = state.expr_depth;
            let nodes = order(plan).len();
            let context = ExprContext::Default;
            let groups = ExprContext::Aggregation;
            match ir_kind(plan.ir) {
                NodeKind::MemorySink => error is MemorySink && count == 1,
                NodeKind::FileSink => count == 1 && (error matches PlanError::FileSink { file_type }
                    && file_type@ == ir_file_type(plan.ir)),
                NodeKind::Scan { .. } => count == 1 && first_failure(
                    error,
                    exprs,
                    0,
                    len,
                    arena,
                    context,
                    ir_scan_schema(plan.ir),
                    true,
                    depth,
                ),
                NodeKind::Union { .. }
                | NodeKind::HConcat
                | NodeKind::Slice { .. }
                | NodeKind::Cache { .. }
                | NodeKind::Distinct
                | NodeKind::MapFunction
                | NodeKind::ExtContext
                | NodeKind::SimpleProjection => is_of_an_input(error, count, plan, arena, state),
                NodeKind::Filter => is_of_an_input(error, count, plan, arena, state) || (count
                    == nodes && plannable(plan.inputs[0], arena, state) && exists|
                    schema: Arc<Schema<DataType>>,
                | #[trigger]
                    schema_outcomes(plan.inputs[0]).contains(schema) && first_failure(
                        error,
                        exprs,
                        0,
                        len,
                        arena,
                        context,
                        schema,
                        true,
                        depth,
                    )),
                NodeKind::Select { .. } | NodeKind::HStack { .. } => is_of_an_input(
                    error,
                    count,
                    plan,
                    arena,
                    state,
                ) || (count == nodes && plannable(plan.inputs[0], arena, state) && exists|
                    schema: Arc<Schema<DataType>>,
                | #[trigger]
                    schema_outcomes(plan.inputs[0]).contains(schema) && first_failure(
                        error,
                        exprs,
                        0,
                        len,
                        arena,
                        context,
                        schema,
                        state.threads > exprs.len(),
                        depth,
                    )),
                NodeKind::Sort => exists|schema: Arc<Schema<DataType>>| #[trigger]
                    schema_outcomes(plan.inputs[0]).contains(schema) && {
                        ||| count == 1 && first_failure(
                            error,
                            exprs,
                            0,
                            len,
                            arena,
                            context,
                            schema,
                            true,
                            depth,
                        )
                        ||| is_of_an_input(error, count, plan, arena, state) && may_all_become(
                            exprs,
                            0,
                            len,
                            arena,
                            context,
                            schema,
                            true,
                            depth,
                        )
                    },
                NodeKind::GroupBy { keys, .. } => exists|schema: Arc<Schema<DataType>>| #[trigger]
                    schema_outcomes(plan.inputs[0]).contains(schema) && {
                        let to = keys as int;
                        ||| count == 1 && first_failure(
                            error,
                            exprs,
                            0,
                            to,
                            arena,
                            context,
                            schema,
                            true,
                            depth,
                        )
                        ||| may_all_become(exprs, 0, to, arena, context, schema, true, depth) && {
                            ||| count == 1 && first_failure(
                                error,
                                exprs,
                                to,
                                len,
                                arena,
                                groups,
                                schema,
                                true,
                                depth,
                            )
                            ||| is_of_an_input(error, count, plan, arena, state) && may_all_become(
                                exprs,
                                to,
                                len,
                                arena,
                                groups,
                                schema,
                                true,
                                depth,
                            )
                        }
                    },
                NodeKind::Join { left_on, .. } => is_of_an_input(error, count, plan, arena, state)
                    || (count == nodes && plannable(plan.inputs[0], arena, state) && plannable(
                    plan.inputs[1],
                    arena,
                    state,
                ) && exists|left: Arc<Schema<DataType>>, right: Arc<Schema<DataType>>|
                    #[trigger]
                    schema_outcomes(plan.inputs[0]).contains(left) && #[trigger] schema_outcomes(
                        plan.inputs[1],
                    ).contains(right) && {
                        let to = left_on as int;
                        ||| first_failure(
                            error,
                            exprs,
                            0,
                            to,
                            arena,
                            context,
                            left,
                            true,
                            depth,
                        )
                        ||| may_all_become(exprs, 0, to, arena, context, left, true, depth) && {
                            ||| first_failure(
                                error,
                                exprs,
                                to,
                                len,
                                arena,
                                context,
                                right,
                                true,
                                depth,
                            )
                            ||| may_all_become(exprs, to, len, arena, context, right, true, depth)
                                && (ir_cross_filter(plan.ir) matches Some((predicate, schema)) && (
                            error matches PlanError::Expression { source } && expr_outcomes(
                                predicate,
                                arena,
                                context,
                                schema,
                                false,
                                depth,
                            ).contains(Err(source))))
                        }
                    }),
                NodeKind::DataFrameScan | NodeKind::Invalid => false,
            }
        }),
{
    let exprs = ir_exprs(plan.ir);
    let first = first_exprs(plan.ir);
    let other = other_exprs(plan.ir);
    let depth = state.expr_depth;
    let context = ExprContext::Default;
    let groups = ExprContext::Aggregation;
    if inputs_fail(error, count - 1, plan, arena, state) {
        lemma_input_error(error, count, plan, arena, state);
    }
    assert(exprs =~= exprs.subrange(0, exprs.len() as int));
    match ir_kind(plan.ir) {
        NodeKind::Scan { .. } => {
            assert(expr_fails(error, exprs[0], arena, ir_scan_schema(plan.ir), true, depth));
        },
        NodeKind::Filter => {
            if !inputs_fail(error, count - 1, plan, arena, state) {
                let schema = choose|schema: Arc<Schema<DataType>>| #[trigger]
                    schema_answers(plan.inputs[0]).contains(schema) && expr_fails(
                        error,
                        exprs[0],
                        arena,
                        schema,
                        true,
                        depth,
                    );
                assert(schema_outcomes(plan.inputs[0]).contains(schema));
                assert(first_failure(error, exprs, 0, 1, arena, context, schema, true, depth));
            }
        },
        NodeKind::Select { .. } | NodeKind::HStack { .. } => {
            if !inputs_fail(error, count - 1, plan, arena, state) {
                let threading = state.threads > exprs.len();
                let schema = choose|schema: Arc<Schema<DataType>>| #[trigger]
                    schema_answers(plan.inputs[0]).contains(schema) && exprs_fail(
                        error,
                        exprs,
                        arena,
                        context,
                        schema,
                        threading,
                        depth,
                    );
                assert(schema_outcomes(plan.inputs[0]).contains(schema));
                lemma_first_failure(
                    error,
                    exprs,
                    exprs,
                    0,
                    arena,
                    context,
                    schema,
                    threading,
                    depth,
                );
            }
        },
        NodeKind::Sort => {
            let schema = choose|schema: Arc<Schema<DataType>>| #[trigger]
                schema_answers(plan.inputs[0]).contains(schema) && {
                    ||| count == 1 && exprs_fail(
                        error,
                        exprs,
                        arena,
                        context,
                        schema,
                        true,
                        depth,
                    )
                    ||| may_compile(exprs, arena, context, schema, true, depth) && inputs_fail(
                        error,
                        count - 1,
                        plan,
                        arena,
                        state,
                    )
                };
            assert(schema_outcomes(plan.inputs[0]).contains(schema));
            if count == 1 && exprs_fail(error, exprs, arena, context, schema, true, depth) {
                lemma_first_failure(error, exprs, exprs, 0, arena, context, schema, true, depth);
            } else {
                lemma_stretch_becomes(exprs, exprs, 0, arena, context, schema, depth);
            }
        },
        NodeKind::GroupBy { keys, .. } => {
            assert(first =~= exprs.subrange(0, first.len() as int));
            assert(other =~= exprs.subrange(keys as int, keys + other.len()));
            let schema = choose|schema: Arc<Schema<DataType>>| #[trigger]
                schema_answers(plan.inputs[0]).contains(schema) && {
                    ||| count == 1 && exprs_fail(
                        error,
                        first,
                        arena,
                        context,
                        schema,
                        true,
                        depth,
                    )
                    ||| count == 1 && may_compile(first, arena, context, schema, true, depth)
                        && exprs_fail(error, other, arena, groups, schema, true, depth)
                    ||| may_compile(first, arena, context, schema, true, depth) && may_compile(
                        other,
                        arena,
                        groups,
                        schema,
                        true,
                        depth,
                    ) && inputs_fail(error, count - 1, plan, arena, state)
                };
            assert(schema_outcomes(plan.inputs[0]).contains(schema));
            if count == 1 && exprs_fail(error, first, arena, context, schema, true, depth) {
                lemma_first_failure(error, first, exprs, 0, arena, context, schema, true, depth);
            } else {
                let from = keys as int;
                lemma_stretch_becomes(first, exprs, 0, arena, context, schema, depth);
                if count == 1 && exprs_fail(error, other, arena, groups, schema, true, depth) {
                    lemma_first_failure(
                        error,
                        other,
                        exprs,
                        from,
                        arena,
                        groups,
                        schema,
                        true,
                        depth,
                    );
                } else {
                    lemma_stretch_becomes(other, exprs, from, arena, groups, schema, depth);
                }
            }
        },
        NodeKind::Join { left_on, .. } => {
            if !inputs_fail(error, count - 1, plan, arena, state) {
                lemma_join_error(error, plan, arena, state);
            }
        },
        _ => {},
    }
}

proof fn lemma_join_error(
    error: PlanError,
    plan: LogicalTree,
    arena: Arena<AExpr>,
    state: ConversionState,
)
    requires
        ir_kind(plan.ir) matches NodeKind::Join { left_on, .. } && left_on <= ir_exprs(
            plan.ir,
        ).len(),
        ({
            let first = first_exprs(plan.ir);
            let other = other_exprs(plan.ir);
            let context = ExprContext::Default;
            let depth = state.expr_depth;
            exists|left: Arc<Schema<DataType>>, right: Arc<Schema<DataType>>|
                #[trigger]
                schema_answers(plan.inputs[0]).contains(left) && #[trigger] schema_answers(
                    plan.inputs[1],
                ).contains(right) && {
                    ||| exprs_fail(error, first, arena, context, left, true, depth)
                    ||| may_compile(first, arena, context, left, true, depth) && exprs_fail(
                        error,
                        other,
                        arena,
                        context,
                        right,
                        true,
                        depth,
                    )
                    ||| may_compile(first, arena, context, left, true, depth) && may_compile(
                        other,
                        arena,
                        context,
                        right,
                        true,
                        depth,
                    ) && (ir_cross_filter(plan.ir) matches Some((predicate, schema)) && expr_fails(
                        error,
                        predicate,
                        arena,
                        schema,
                        false,
                        depth,
                    ))
                }
        }),
    ensures
        ({
            let exprs = ir_exprs(plan.ir);
            let len = exprs.len() as int;
            let context = ExprContext::Default;
            let depth = state.expr_depth;
            let to = first_exprs(plan.ir).len() as int;
            exists|left: Arc<Schema<DataType>>, right: Arc<Schema<DataType>>|
                #[trigger]
                schema_outcomes(plan.inputs[0]).contains(left) && #[trigger] schema_outcomes(
                    plan.inputs[1],
                ).contains(right) && {
                    ||| first_failure(error, exprs, 0, to, arena, context, left, true, depth)
                    ||| may_all_become(exprs, 0, to, arena, context, left, true, depth) && {
                        ||| first_failure(
                            error,
                            exprs,
                            to,
                            len,
                            arena,
                            context,
                            right,
                            true,
                            depth,
                        )
                        ||| may_all_become(exprs, to, len, arena, context, right, true, depth) && (
                        ir_cross_filter(plan.ir) matches Some((predicate, schema)) && (
                        error matches PlanError::Expression { source } && expr_outcomes(
                            predicate,
                            arena,
                            context,
                            schema,
                            false,
                            depth,
                        ).contains(Err(source))))
                    }
                }
        }),
{
    let exprs = ir_exprs(plan.ir);
    let first = first_exprs(plan.ir);
    let other = other_exprs(plan.ir);
    let context = ExprContext::Default;
    let depth = state.expr_depth;
    let to = first.len() as int;
    assert(first =~= exprs.subrange(0, first.len() as int));
    assert(other =~= exprs.subrange(to, to + other.len()));
    let (left, right) = choose|left: Arc<Schema<DataType>>, right: Arc<Schema<DataType>>|
        #[trigger]
        schema_answers(plan.inputs[0]).contains(left) && #[trigger] schema_answers(
            plan.inputs[1],
        ).contains(right) && {
            ||| exprs_fail(error, first, arena, context, left, true, depth)
            ||| may_compile(first, arena, context, left, true, depth) && exprs_fail(
                error,
                other,
                arena,
                context,
                right,
                true,
                depth,
            )
            ||| may_compile(first, arena, context, left, true, depth) && may_compile(
                other,
                arena,
                context,
                right,
                true,
                depth,
            ) && (ir_cross_filter(plan.ir) matches Some((predicate, schema)) && expr_fails(
                error,
                predicate,
                arena,
                schema,
                false,
                depth,
            ))
        };
    assert(schema_outcomes(plan.inputs[0]).contains(left));
    assert(schema_outcomes(plan.inputs[1]).contains(right));
    if exprs_fail(error, first, arena, context, left, true, depth) {
        lemma_first_failure(error, first, exprs, 0, arena, context, left, true, depth);
    } else {
        lemma_stretch_becomes(first, exprs, 0, arena, context, left, depth);
        if exprs_fail(error, other, arena, context, right, true, depth) {
            lemma_first_failure(error, other, exprs, to, arena, context, right, true, depth);
        } else {
            lemma_stretch_becomes(other, exprs, to, arena, context, right, depth);
        }
    }
}

/// Whether an expression of a node may fail with this error of polars' own.
pub open spec fn can_fail(ir: IR, arena: Arena<AExpr>, depth: u16, source: PolarsError) -> bool {
    exists|
        expr: ExprIR,
        context: ExprContext,
        schema: Arc<Schema<DataType>>,
        allow_threading: bool,
    | #[trigger]
        expr_outcomes(expr, arena, context, schema, allow_threading, depth).contains(Err(source))
            && (ir_exprs(ir).contains(expr) || ir_cross_filter(ir) == Some((expr, schema)))
}

/// An error of planning names a node of the plan: a sink to memory, a sink to a file of the
/// type that is named, or a node with an expression that polars answers with that error. The
/// limit of depth is no matter of the plan.
pub proof fn law_errors_name_a_node(
    irs: Seq<IR>,
    error: PlanError,
    count: int,
    plan: LogicalTree,
    arena: Arena<AExpr>,
    state: ConversionState,
)
    requires
        represents(irs, plan),
        fails(error, count, plan, arena, state),
    ensures
        match error {
            PlanError::MemorySink => exists|n: usize| #[trigger]
                has_node(plan, n) && ir_kind(irs[n as int]) is MemorySink,
            PlanError::FileSink { file_type } => exists|n: usize| #[trigger]
                has_node(plan, n) && ir_kind(irs[n as int]) is FileSink && ir_file_type(
                    irs[n as int],
                ) == file_type@,
            PlanError::Expression { source } => exists|n: usize| #[trigger]
                has_node(plan, n) && can_fail(irs[n as int], arena, state.expr_depth, source),
            PlanError::DepthLimit { .. } => false,
        },
    decreases plan,
{
    law_errors_are_located(irs, error, count, plan, arena, state);
    if is_of_an_input(error, count, plan, arena, state) {
        let (i, below) = choose|i: int, below: int|
            #![trigger fails(error, below, plan.inputs[i], arena, state)]
            0 <= i < plan.inputs.len() && fails(error, below, plan.inputs[i], arena, state);
        let input = plan.inputs[i];
        law_errors_name_a_node(irs, error, below, input, arena, state);
        assert forall|n: usize| #[trigger] has_node(input, n) implies has_node(plan, n) by {}
    } else {
        assert(has_node(plan, plan.node));
        lemma_own_error(error, count, plan, arena, state);
    }
}

proof fn lemma_own_error(
    error: PlanError,
    count: int,
    plan: LogicalTree,
    arena: Arena<AExpr>,
    state: ConversionState,
)
    requires
        fails(error, count, plan, arena, state),
        !is_of_an_input(error, count, plan, arena, state),
        shape_fits(
            ir_kind(plan.ir),
            ir_inputs(plan.ir).len(),
            ir_exprs(plan.ir).len(),
        ),
    ensures
        match error {
            PlanError::MemorySink => ir_kind(plan.ir) is MemorySink,
            PlanError::FileSink { file_type } => ir_kind(plan.ir) is FileSink && ir_file_type(
                plan.ir,
            ) == file_type@,
            PlanError::Expression { source } => can_fail(
                plan.ir,
                arena,
                state.expr_depth,
                source,
            ),
            PlanError::DepthLimit { .. } => false,
        },
{
    let exprs = ir_exprs(plan.ir);
    let first = first_exprs(plan.ir);
    let other = other_exprs(plan.ir);
    let depth = state.expr_depth;
    if inputs_fail(error, count - 1, plan, arena, state) {
        lemma_input_error(error, count, plan, arena, state);
    }
    match error {
        PlanError::Expression { source } => {
            assert forall|
                some: Seq<ExprIR>,
                context: ExprContext,
                schema: Arc<Schema<DataType>>,
                threading: bool,
            |
                (some == exprs || some == first || some == other) && #[trigger] exprs_fail(
                    error,
                    some,
                    arena,
                    context,
                    schema,
                    threading,
                    depth,
                ) implies can_fail(plan.ir, arena, depth, source) by {
                assert(may_fail(some, arena, context, schema, threading, depth, source));
                let k = choose|k: int|
                    #![trigger some[k]]
                    0 <= k < some.len() && expr_answers(
                        some[k],
                        arena,
                        context,
                        schema,
                        threading,
                        depth,
                    ).contains(Err(source));
                assert(expr_outcomes(some[k], arena, context, schema, threading, depth).contains(
                    Err(source),
                ));
                if some == other {
                    assert(some[k] == exprs[exprs.len() - other.len() + k]);
                } else {
                    assert(some[k] == exprs[k]);
                }
                assert(exprs.contains(some[k]));
            }
            assert forall|schema: Arc<Schema<DataType>>|
                exprs.len() > 0 && #[trigger] expr_fails(
                    error,
                    exprs[0],
                    arena,
                    schema,
                    true,
                    depth,
                ) implies can_fail(plan.ir, arena, depth, source) by {
                assert(expr_outcomes(
                    exprs[0],
                    arena,
                    ExprContext::Default,
                    schema,
                    true,
                    depth,
                ).contains(Err(source)));
                assert(exprs.contains(exprs[0]));
            }
            match ir_cross_filter(plan.ir) {
                Some((predicate, schema)) => {
                    if expr_fails(error, predicate, arena, schema, false, depth) {
                        assert(expr_outcomes(
                            predicate,
                            arena,
                            ExprContext::Default,
                            schema,
                            false,
                            depth,
                        ).contains(Err(source)));
                    }
                },
                None => {},
            }
        },
        _ => {},
    }
}

/// A plan with a sink among its nodes has no executor. A plan without one has an executor where
/// polars answers none of its expressions with an error.
pub proof fn law_when_planning_succeeds(
    result: Result<Executor, PlanError>,
    before: Seq<IR>,
    after: Seq<IR>,
    plan: LogicalTree,
    arena: Arena<AExpr>,
    state: ConversionState,
)
    requires
        represents(before, plan),
        may_result(result, before, after, plan, arena, state),
    ensures
        (exists|n: usize| #[trigger]
            has_node(plan, n) && (ir_kind(before[n as int]) is MemorySink || ir_kind(
                before[n as int],
            ) is FileSink)) ==> result is Err,
        (forall|n: usize| #[trigger]
            has_node(plan, n) ==> !(ir_kind(before[n as int]) is MemorySink) && !(ir_kind(
                before[n as int],
            ) is FileSink) && forall|source: PolarsError|
                !(#[trigger] can_fail(before[n as int], arena, state.expr_depth, source)))
            ==> result is Ok,
{
    match result {
        Ok(executor) => {
            law_sinks_halt(before, plan);
            if halts(plan) {
                law_sinks_are_refused(before, executor, plan, arena, state);
            }
        },
        Err(error) => {
            let count = choose|count: int| #[trigger]
                taken(before, after, order(plan), count) && fails(error, count, plan, arena, state);
            law_errors_name_a_node(before, error, count, plan, arena, state);
        },
    }
}

} // verus!
