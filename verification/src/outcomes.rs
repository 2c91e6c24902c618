//! When planning fails: which nodes of a plan let it go on, and which stop it.
use crate::checks::vouched;
use crate::expression::{
    all_plain, compile_as, compile_to, expr_answers, is_plain, is_shallow, may_compile, ExprContext,
};
use crate::logical::{
    carries_schema, ir_cross_filter, ir_exprs, ir_file_type, ir_kind, ir_scan_schema, is_sink,
    needs_schemas, represents, schema_answers, schema_outcomes, LogicalTree, NodeKind,
};
use crate::order::{order, orders, taken};
use crate::physical::{
    expr_fails, exprs_fail, fails, first_exprs, inputs_fail, other_exprs, plans, Executor,
};
use crate::planner::may_result;
use crate::planner_laws::lemma_inputs_plan;
use crate::state::{ConversionState, PlanError};
use polars_core::prelude::DataType;
use polars_expr::prelude::PhysicalIoHelper;
use polars_plan::prelude::expr_ir::ExprIR;
use polars_plan::prelude::{AExpr, Arena, IR};
use polars_schema::Schema;
use std::sync::Arc;
use vstd::prelude::*;

verus! {

/// Whether one expression on columns may compile.
pub open spec fn expr_passes(
    expr: ExprIR,
    arena: Arena<AExpr>,
    schema: Arc<Schema<DataType>>,
    allow_threading: bool,
    depth: u16,
) -> bool {
    let outcomes = expr_answers(
        expr,
        arena,
        ExprContext::Default,
        schema,
        allow_threading,
        depth,
    );
    exists|compiled: PhysicalIoHelper|
        #![trigger outcomes.contains(Ok((compiled, true)))]
        #![trigger outcomes.contains(Ok((compiled, false)))]
        outcomes.contains(Ok((compiled, true))) || outcomes.contains(Ok((compiled, false)))
}

/// Whether expressions may compile on the columns of an input.
pub open spec fn exprs_pass(
    exprs: Seq<ExprIR>,
    arena: Arena<AExpr>,
    context: ExprContext,
    input: LogicalTree,
    allow_threading: bool,
    depth: u16,
) -> bool {
    exists|schema: Arc<Schema<DataType>>| #[trigger]
        schema_answers(input).contains(schema) && may_compile(
            exprs,
            arena,
            context,
            schema,
            allow_threading,
            depth,
        )
}

/// Whether the root of a plan may let planning go on: it is no sink, and its expressions
/// may compile.
pub open spec fn node_passes(
    plan: LogicalTree,
    arena: Arena<AExpr>,
    state: ConversionState,
) -> bool {
    let depth = state.expr_depth;
    let exprs = ir_exprs(plan.ir);
    let first = first_exprs(plan.ir);
    let other = other_exprs(plan.ir);
    match ir_kind(plan.ir) {
        NodeKind::MemorySink | NodeKind::FileSink => false,
        NodeKind::Filter => exists|schema: Arc<Schema<DataType>>| #[trigger]
            schema_answers(plan.inputs[0]).contains(schema) && expr_passes(
                exprs[0],
                arena,
                schema,
                true,
                depth,
            ),
        NodeKind::Scan { .. } => exprs.len() > 0 ==> expr_passes(
            exprs[0],
            arena,
            ir_scan_schema(plan.ir),
            true,
            depth,
        ),
        NodeKind::Select { .. } | NodeKind::HStack { .. } => exprs_pass(
            exprs,
            arena,
            ExprContext::Default,
            plan.inputs[0],
            state.threads > exprs.len(),
            depth,
        ),
        NodeKind::Sort => exprs_pass(
            exprs,
            arena,
            ExprContext::Default,
            plan.inputs[0],
            true,
            depth,
        ),
        NodeKind::GroupBy { .. } => {
            &&& exprs_pass(first, arena, ExprContext::Default, plan.inputs[0], true, depth)
            &&& exprs_pass(other, arena, ExprContext::Aggregation, plan.inputs[0], true, depth)
        },
        NodeKind::Join { .. } => {
            &&& exprs_pass(first, arena, ExprContext::Default, plan.inputs[0], true, depth)
            &&& exprs_pass(other, arena, ExprContext::Default, plan.inputs[1], true, depth)
            &&& ir_cross_filter(plan.ir) matches Some((predicate, schema)) ==> expr_passes(
                predicate,
                arena,
                schema,
                false,
                depth,
            )
        },
        _ => true,
    }
}

/// Whether expressions may fail with this error on the columns of an input.
pub open spec fn exprs_stop(
    error: PlanError,
    exprs: Seq<ExprIR>,
    arena: Arena<AExpr>,
    context: ExprContext,
    input: LogicalTree,
    allow_threading: bool,
    depth: u16,
) -> bool {
    exists|schema: Arc<Schema<DataType>>| #[trigger]
        schema_answers(input).contains(schema) && exprs_fail(
            error,
            exprs,
            arena,
            context,
            schema,
            allow_threading,
            depth,
        )
}

/// Whether the root of a plan may stop planning with this error: it is a sink, or one of
/// its expressions may fail.
pub open spec fn node_stops(
    error: PlanError,
    plan: LogicalTree,
    arena: Arena<AExpr>,
    state: ConversionState,
) -> bool {
    let depth = state.expr_depth;
    let exprs = ir_exprs(plan.ir);
    let first = first_exprs(plan.ir);
    let other = other_exprs(plan.ir);
    match ir_kind(plan.ir) {
        NodeKind::MemorySink => error is MemorySink,
        NodeKind::FileSink => error matches PlanError::FileSink { file_type } && file_type@
            == ir_file_type(plan.ir),
        NodeKind::Filter => exists|schema: Arc<Schema<DataType>>| #[trigger]
            schema_answers(plan.inputs[0]).contains(schema) && expr_fails(
                error,
                exprs[0],
                arena,
                schema,
                true,
                depth,
            ),
        NodeKind::Scan { .. } => exprs.len() > 0 && expr_fails(
            error,
            exprs[0],
            arena,
            ir_scan_schema(plan.ir),
            true,
            depth,
        ),
        NodeKind::Select { .. } | NodeKind::HStack { .. } => exprs_stop(
            error,
            exprs,
            arena,
            ExprContext::Default,
            plan.inputs[0],
            state.threads > exprs.len(),
            depth,
        ),
        NodeKind::Sort => exprs_stop(
            error,
            exprs,
            arena,
            ExprContext::Default,
            plan.inputs[0],
            true,
            depth,
        ),
        NodeKind::GroupBy { .. } => {
            ||| exprs_stop(error, first, arena, ExprContext::Default, plan.inputs[0], true, depth)
            ||| exprs_stop(
                error,
                other,
                arena,
                ExprContext::Aggregation,
                plan.inputs[0],
                true,
                depth,
            )
        },
        NodeKind::Join { .. } => {
            ||| exprs_stop(error, first, arena, ExprContext::Default, plan.inputs[0], true, depth)
            ||| exprs_stop(error, other, arena, ExprContext::Default, plan.inputs[1], true, depth)
            ||| (ir_cross_filter(plan.ir) matches Some((predicate, schema)) && expr_fails(
                error,
                predicate,
                arena,
                schema,
                false,
                depth,
            ))
        },
        _ => false,
    }
}

/// Whether every node of a plan may let planning go on.
pub open spec fn passes(plan: LogicalTree, arena: Arena<AExpr>, state: ConversionState) -> bool
    decreases plan,
{
    node_passes(plan, arena, state) && forall|i: int|
        #![trigger plan.inputs[i]]
        0 <= i < plan.inputs.len() ==> passes(plan.inputs[i], arena, state)
}

/// Whether some node of a plan may stop planning with this error.
pub open spec fn stops(
    error: PlanError,
    plan: LogicalTree,
    arena: Arena<AExpr>,
    state: ConversionState,
) -> bool
    decreases plan,
{
    node_stops(error, plan, arena, state) || (!is_sink(ir_kind(plan.ir)) && exists|i: int|
        #![trigger plan.inputs[i]]
        0 <= i < plan.inputs.len() && stops(error, plan.inputs[i], arena, state))
}

/// Whether no node of a plan may do both, let planning go on at one time and stop it at
/// another. A node may do both only where what polars finds for it, a schema or a compiled
/// expression, is not always the same.
pub open spec fn decided(plan: LogicalTree, arena: Arena<AExpr>, state: ConversionState) -> bool
    decreases plan,
{
    is_sink(ir_kind(plan.ir)) || {
        &&& node_passes(plan, arena, state) ==> forall|error: PlanError|
            !(#[trigger] node_stops(error, plan, arena, state))
        &&& forall|i: int|
            #![trigger plan.inputs[i]]
            0 <= i < plan.inputs.len() ==> decided(plan.inputs[i], arena, state)
    }
}

/// Expressions that call no function do not both compile and fail.
proof fn lemma_plain_exprs_settled(
    error: PlanError,
    exprs: Seq<ExprIR>,
    arena: Arena<AExpr>,
    context: ExprContext,
    input: LogicalTree,
    allow_threading: bool,
    depth: u16,
)
    requires
        all_plain(exprs, arena),
        carries_schema(input),
    ensures
        !(exprs_pass(exprs, arena, context, input, allow_threading, depth) && exprs_stop(
            error,
            exprs,
            arena,
            context,
            input,
            allow_threading,
            depth,
        )),
{
    if exprs_pass(exprs, arena, context, input, allow_threading, depth) && exprs_stop(
        error,
        exprs,
        arena,
        context,
        input,
        allow_threading,
        depth,
    ) {
        let schema = schema_outcomes(input).choose();
        assert(may_compile(exprs, arena, context, schema, allow_threading, depth));
        assert(exprs_fail(error, exprs, arena, context, schema, allow_threading, depth));
        let compiled = choose|compiled: Seq<PhysicalIoHelper>| #[trigger]
            compile_as(exprs, arena, context, schema, allow_threading, depth, compiled);
        let windows = choose|windows: Seq<bool>| #[trigger]
            compile_to(exprs, arena, context, schema, allow_threading, depth, compiled, windows);
        assert(compile_to(
            exprs,
            arena,
            context,
            schema,
            allow_threading,
            depth,
            compiled,
            windows,
        ));
        assert(false);
    }
}

/// A plan whose expressions call no function, and in which the schemas that are needed are
/// written, is decided: each node lets planning go on, or stops it.
pub proof fn law_vouched_plans_are_decided(
    irs: Seq<IR>,
    plan: LogicalTree,
    arena: Arena<AExpr>,
    depth: u16,
    state: ConversionState,
)
    requires
        represents(irs, plan),
        vouched(plan, arena, depth),
    ensures
        decided(plan, arena, state),
    decreases plan,
{
    if !is_sink(ir_kind(plan.ir)) {
        let exprs = ir_exprs(plan.ir);
        let first = first_exprs(plan.ir);
        let other = other_exprs(plan.ir);
        let limit = state.expr_depth;
        let context = ExprContext::Default;
        assert forall|i: int| #![trigger plan.inputs[i]] 0 <= i < plan.inputs.len() implies decided(
            plan.inputs[i],
            arena,
            state,
        ) by {
            law_vouched_plans_are_decided(irs, plan.inputs[i], arena, depth, state);
        }
        assert forall|i: int| #![trigger exprs[i]] 0 <= i < exprs.len() implies is_plain(
            exprs[i],
            arena,
        ) by {
            assert(is_shallow(exprs[i], arena, depth));
        }
        assert forall|i: int| #![trigger first[i]] 0 <= i < first.len() implies is_plain(
            first[i],
            arena,
        ) by {
            assert(first[i] == exprs[i]);
        }
        assert forall|i: int| #![trigger other[i]] 0 <= i < other.len() implies is_plain(
            other[i],
            arena,
        ) by {
            assert(other[i] == exprs[exprs.len() - other.len() + i]);
        }
        if needs_schemas(ir_kind(plan.ir)) {
            assert(carries_schema(plan.inputs[0]));
            if ir_kind(plan.ir) is Join {
                assert(carries_schema(plan.inputs[1]));
            }
        }
        assert forall|error: PlanError| node_passes(plan, arena, state) implies !(
        #[trigger] node_stops(error, plan, arena, state)) by {
            let threading = state.threads > exprs.len();
            match ir_kind(plan.ir) {
                NodeKind::Select { .. } | NodeKind::HStack { .. } => {
                    let input = plan.inputs[0];
                    lemma_plain_exprs_settled(
                        error,
                        exprs,
                        arena,
                        context,
                        input,
                        threading,
                        limit,
                    );
                },
                NodeKind::Sort => {
                    let input = plan.inputs[0];
                    lemma_plain_exprs_settled(error, exprs, arena, context, input, true, limit);
                },
                NodeKind::GroupBy { .. } => {
                    let input = plan.inputs[0];
                    let groups = ExprContext::Aggregation;
                    lemma_plain_exprs_settled(error, first, arena, context, input, true, limit);
                    lemma_plain_exprs_settled(error, other, arena, groups, input, true, limit);
                },
                NodeKind::Join { .. } => {
                    let left = plan.inputs[0];
                    let right = plan.inputs[1];
                    lemma_plain_exprs_settled(error, first, arena, context, left, true, limit);
                    lemma_plain_exprs_settled(error, other, arena, context, right, true, limit);
                },
                NodeKind::Filter => {
                    assert(is_plain(exprs[0], arena));
                },
                NodeKind::Scan { .. } => {
                    assert(exprs.len() > 0 ==> is_plain(exprs[0], arena));
                },
                _ => {},
            }
        }
    }
}

proof fn lemma_planned_node_passes(
    executor: Executor,
    plan: LogicalTree,
    arena: Arena<AExpr>,
    state: ConversionState,
)
    requires
        plans(executor, plan, arena, state),
    ensures
        node_passes(plan, arena, state),
{
    let depth = state.expr_depth;
    let exprs = ir_exprs(plan.ir);
    let context = ExprContext::Default;
    match executor {
        Executor::Filter { predicate, has_windows, .. } => {
            let schema = choose|schema: Arc<Schema<DataType>>| #[trigger]
                schema_answers(plan.inputs[0]).contains(schema) && expr_answers(
                    exprs[0],
                    arena,
                    context,
                    schema,
                    true,
                    depth,
                ).contains(Ok((predicate, has_windows)));
            assert(expr_passes(exprs[0], arena, schema, true, depth));
        },
        Executor::Projection { exprs: compiled, input_schema, .. } => {
            let threading = state.threads > exprs.len();
            assert(compile_as(exprs, arena, context, input_schema, threading, depth, compiled@));
        },
        Executor::Stack { exprs: compiled, input_schema, .. } => {
            let threading = state.threads > exprs.len();
            assert(compile_as(exprs, arena, context, input_schema, threading, depth, compiled@));
        },
        _ => {},
    }
}

/// A plan that has been planned has no node that could not but stop planning.
pub proof fn law_planned_plans_pass(
    irs: Seq<IR>,
    executor: Executor,
    plan: LogicalTree,
    arena: Arena<AExpr>,
    state: ConversionState,
)
    requires
        represents(irs, plan),
        plans(executor, plan, arena, state),
    ensures
        passes(plan, arena, state),
    decreases plan,
{
    assert forall|i: int| #![trigger plan.inputs[i]] 0 <= i < plan.inputs.len() implies passes(
        plan.inputs[i],
        arena,
        state,
    ) by {
        lemma_inputs_plan(irs, executor, plan, arena, state, i);
        let below = choose|x: Executor| #[trigger] plans(x, plan.inputs[i], arena, state);
        law_planned_plans_pass(irs, below, plan.inputs[i], arena, state);
    }
    lemma_planned_node_passes(executor, plan, arena, state);
}

/// An error of planning is that of a node of the plan that may stop planning with it.
pub proof fn law_errors_have_a_node(
    irs: Seq<IR>,
    error: PlanError,
    count: int,
    plan: LogicalTree,
    arena: Arena<AExpr>,
    state: ConversionState,
)
    requires
        represents(irs, plan),
        fails(error, count, plan, arena, state),
    ensures
        stops(error, plan, arena, state),
    decreases plan,
{
    if exists|i: int, c: int|
        #![trigger fails(error, c, plan.inputs[i], arena, state)]
        0 <= i < plan.inputs.len() && fails(error, c, plan.inputs[i], arena, state) {
        let (i, c) = choose|i: int, c: int|
            #![trigger fails(error, c, plan.inputs[i], arena, state)]
            0 <= i < plan.inputs.len() && fails(error, c, plan.inputs[i], arena, state);
        law_errors_have_a_node(irs, error, c, plan.inputs[i], arena, state);
    } else {
        assert(!inputs_fail(error, count - 1, plan, arena, state)) by {
            if inputs_fail(error, count - 1, plan, arena, state) {
                let i = choose|i: int|
                    #![trigger plan.inputs[i]]
                    0 <= i < plan.inputs.len() && fails(
                        error,
                        count - 1 - orders(plan.inputs.subrange(0, i)).len(),
                        plan.inputs[i],
                        arena,
                        state,
                    );
                assert(!fails(
                    error,
                    count - 1 - orders(plan.inputs.subrange(0, i)).len(),
                    plan.inputs[i],
                    arena,
                    state,
                ));
            }
        }
        assert(node_stops(error, plan, arena, state));
    }
}

proof fn lemma_stopped_plans_do_not_pass(
    error: PlanError,
    plan: LogicalTree,
    arena: Arena<AExpr>,
    state: ConversionState,
)
    requires
        decided(plan, arena, state),
        stops(error, plan, arena, state),
    ensures
        !passes(plan, arena, state),
    decreases plan,
{
    if !node_stops(error, plan, arena, state) {
        let i = choose|i: int|
            #![trigger plan.inputs[i]]
            0 <= i < plan.inputs.len() && stops(error, plan.inputs[i], arena, state);
        lemma_stopped_plans_do_not_pass(error, plan.inputs[i], arena, state);
    }
}

/// Planning fails exactly where a node of the plan stops it: a sink, or one with an
/// expression that does not compile. The error is that of such a node, and a node that
/// cannot but stop planning gives an error. The equivalence is left open only where a node
/// may do both; none does where no expression calls a function and the schemas that are
/// needed are written in the plan.
pub proof fn law_planning_fails_exactly_at_a_stop(
    result: Result<Executor, PlanError>,
    before: Seq<IR>,
    after: Seq<IR>,
    plan: LogicalTree,
    arena: Arena<AExpr>,
    state: ConversionState,
)
    requires
        represents(before, plan),
        may_result(result, before, after, plan, arena, state),
    ensures
        result matches Err(error) ==> stops(error, plan, arena, state),
        !passes(plan, arena, state) ==> result is Err,
        decided(plan, arena, state) || vouched(plan, arena, 0) ==> (result is Err <==> !passes(
            plan,
            arena,
            state,
        )) && (result is Err <==> exists|error: PlanError| #[trigger]
            stops(error, plan, arena, state)),
{
    if vouched(plan, arena, 0) {
        law_vouched_plans_are_decided(before, plan, arena, 0, state);
    }
    match result {
        Ok(executor) => {
            law_planned_plans_pass(before, executor, plan, arena, state);
            if decided(plan, arena, state) {
                assert forall|error: PlanError| !(#[trigger] stops(error, plan, arena, state)) by {
                    if stops(error, plan, arena, state) {
                        lemma_stopped_plans_do_not_pass(error, plan, arena, state);
                    }
                }
            }
        },
        Err(error) => {
            let count = choose|count: int| #[trigger]
                taken(before, after, order(plan), count) && fails(error, count, plan, arena, state);
            law_errors_have_a_node(before, error, count, plan, arena, state);
            if decided(plan, arena, state) {
                lemma_stopped_plans_do_not_pass(error, plan, arena, state);
            }
        },
    }
}

} // verus!
