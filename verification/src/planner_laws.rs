//! What holds of planning as a whole.
use crate::expression::{
    all_literal, expr_nodes, expr_shape, has_categoricals, has_literal_series,
};
use crate::graph::size;
use crate::logical::{
    halts, has_node, ir_cross_filter, ir_exprs, ir_file_type, ir_kind, is_plan, is_sink, is_tree,
    lemma_nodes_in_arena, lemma_plan_at, represents, root_plan, schema_answers, LogicalTree,
    NodeKind, ScanFormat,
};
use crate::order::{
    all_taken, below, lemma_order_nodes, lemma_orders_split, lemma_plan_untaken, order,
    orders, taken,
};
use crate::outcomes::{law_errors_have_a_node, node_stops, stops};
use crate::physical::{
    fails, first_exprs, inputs_fail, keys_are_simple, may_partition, other_exprs, plannable, plans,
    ready, Executor, Grouping,
};
use crate::planner::may_result;
use crate::sources::share_source;
use crate::state::{ConversionState, PlanError, Setting};
use polars_core::prelude::DataType;
use polars_plan::prelude::expr_ir::ExprIR;
use polars_plan::prelude::{AExpr, Arena, IR};
use polars_schema::Schema;
use std::sync::Arc;
use vstd::prelude::*;

verus! {

/// Whether a sink to memory occurs in a plan.
pub open spec fn has_memory_sink(plan: LogicalTree) -> bool
    decreases plan,
{
    ir_kind(plan.ir) is MemorySink || exists|i: int|
        #![trigger plan.inputs[i]]
        0 <= i < plan.inputs.len() && has_memory_sink(plan.inputs[i])
}

/// Whether a sink to a file of this type occurs in a plan.
pub open spec fn has_file_sink(plan: LogicalTree, file_type: Seq<char>) -> bool
    decreases plan,
{
    (ir_kind(plan.ir) is FileSink && ir_file_type(plan.ir) == file_type) || exists|i: int|
        #![trigger plan.inputs[i]]
        0 <= i < plan.inputs.len() && has_file_sink(plan.inputs[i], file_type)
}

/// Whether a plan has an expression.
pub open spec fn has_exprs(plan: LogicalTree) -> bool
    decreases plan,
{
    ir_exprs(plan.ir).len() > 0 || (ir_kind(plan.ir) is Join && ir_cross_filter(plan.ir) is Some)
        || exists|i: int|
        #![trigger plan.inputs[i]]
        0 <= i < plan.inputs.len() && has_exprs(plan.inputs[i])
}

/// The number of nodes of a plan.
pub open spec fn node_count(plan: LogicalTree) -> nat
    decreases plan,
{
    1 + node_counts(plan.inputs)
}

/// The number of nodes of plans together.
pub open spec fn node_counts(plans: Seq<LogicalTree>) -> nat
    decreases plans,
{
    if plans.len() == 0 {
        0
    } else {
        node_counts(plans.subrange(0, plans.len() - 1)) + node_count(plans[plans.len() - 1])
    }
}

/// The number of executors of a physical plan.
pub open spec fn executor_count(executor: Executor) -> nat
    decreases executor,
{
    match executor {
        Executor::Union { inputs, .. } | Executor::HConcat { inputs, .. } => 1 + executor_counts(
            inputs@,
        ),
        Executor::Scan { .. } | Executor::DataFrame { .. } => 1,
        Executor::Slice { input, .. }
        | Executor::Filter { input, .. }
        | Executor::Projection { input, .. }
        | Executor::Sort { input, .. }
        | Executor::Cache { input, .. }
        | Executor::Unique { input, .. }
        | Executor::GroupBy { input, .. }
        | Executor::Stack { input, .. }
        | Executor::Udf { input, .. }
        | Executor::ProjectionSimple { input, .. } => 1 + executor_count(*input),
        Executor::Join { input_left, input_right, .. } => 1 + executor_count(*input_left)
            + executor_count(*input_right),
        Executor::ExternalContext { input, contexts } => 1 + executor_counts(contexts@)
            + executor_count(*input),
    }
}

/// The number of executors of physical plans together.
pub open spec fn executor_counts(executors: Seq<Executor>) -> nat
    decreases executors,
{
    if executors.len() == 0 {
        0
    } else {
        executor_counts(executors.subrange(0, executors.len() - 1)) + executor_count(
            executors[executors.len() - 1],
        )
    }
}

/// Every input of a plan that becomes an executor may become one.
pub(crate) proof fn lemma_inputs_plan(
    irs: Seq<IR>,
    executor: Executor,
    plan: LogicalTree,
    arena: Arena<AExpr>,
    state: ConversionState,
    i: int,
)
    requires
        represents(irs, plan),
        plans(executor, plan, arena, state),
        0 <= i < plan.inputs.len(),
    ensures
        plannable(plan.inputs[i], arena, state),
{
    match executor {
        Executor::Union { inputs, .. } | Executor::HConcat { inputs, .. } => {
            assert(plans(inputs@[i], plan.inputs[i], arena, state));
        },
        Executor::ExternalContext { input, contexts } => {
            if i > 0 {
                assert(plans(contexts@[i - 1], plan.inputs[i], arena, state));
            } else {
                assert(plans(*input, plan.inputs[i], arena, state));
            }
        },
        Executor::Join { input_left, input_right, .. } => {
            assert(plans(*input_left, plan.inputs[0], arena, state));
            assert(plans(*input_right, plan.inputs[1], arena, state));
        },
        Executor::Slice { input, .. }
        | Executor::Filter { input, .. }
        | Executor::Projection { input, .. }
        | Executor::Sort { input, .. }
        | Executor::Cache { input, .. }
        | Executor::Unique { input, .. }
        | Executor::GroupBy { input, .. }
        | Executor::Stack { input, .. }
        | Executor::Udf { input, .. }
        | Executor::ProjectionSimple { input, .. } => {
            assert(plans(*input, plan.inputs[0], arena, state));
        },
        _ => {},
    }
}

/// A plan with a sink anywhere in it has no executor.
pub proof fn law_sinks_are_refused(
    irs: Seq<IR>,
    executor: Executor,
    plan: LogicalTree,
    arena: Arena<AExpr>,
    state: ConversionState,
)
    requires
        represents(irs, plan),
        halts(plan),
    ensures
        !plans(executor, plan, arena, state),
    decreases plan,
{
    if plans(executor, plan, arena, state) {
        let i = choose|i: int|
            #![trigger plan.inputs[i]]
            0 <= i < plan.inputs.len() && halts(plan.inputs[i]);
        lemma_inputs_plan(irs, executor, plan, arena, state, i);
        let below = choose|x: Executor| #[trigger] plans(x, plan.inputs[i], arena, state);
        law_sinks_are_refused(irs, below, plan.inputs[i], arena, state);
    }
}

/// A sink is refused with its own error, whatever lies below it: planning asks nothing of
/// what is there, and takes the sink out of the arena and nothing else.
pub proof fn law_a_sink_is_refused_at_once(
    result: Result<Executor, PlanError>,
    before: Seq<IR>,
    after: Seq<IR>,
    node: usize,
    arena: Arena<AExpr>,
    state: ConversionState,
)
    requires
        node < before.len(),
        is_sink(ir_kind(before[node as int])),
    ensures
        is_tree(before, node),
        ready(root_plan(before, node), arena, state),
        may_result(result, before, after, root_plan(before, node), arena, state) ==> {
            &&& result matches Err(error) && match ir_kind(before[node as int]) {
                NodeKind::MemorySink => error is MemorySink,
                _ => error matches PlanError::FileSink { file_type } && file_type@ == ir_file_type(
                    before[node as int],
                ),
            }
            &&& after.len() == before.len()
            &&& ir_kind(after[node as int]) is Invalid
            &&& forall|n: usize|
                #![trigger after[n as int]]
                n < before.len() && n != node ==> after[n as int] == before[n as int]
        },
{
    let ir = before[node as int];
    let plan = LogicalTree { node, ir, asked: false, inputs: Seq::empty() };
    assert(represents(before, plan));
    lemma_plan_at(before, plan);
    if may_result(result, before, after, plan, arena, state) {
        law_only_the_plan_is_taken(result, before, after, plan, arena, state);
        assert forall|n: usize| n != node implies !(#[trigger] has_node(plan, n)) by {}
        assert(result is Err);
    }
}

/// Where an error of planning comes from: a sink of the plan, or an expression of the plan.
pub open spec fn error_in(error: PlanError, plan: LogicalTree) -> bool {
    match error {
        PlanError::MemorySink => has_memory_sink(plan),
        PlanError::FileSink { file_type } => has_file_sink(plan, file_type@),
        PlanError::Expression { .. } => has_exprs(plan),
        PlanError::DepthLimit { .. } => false,
    }
}

proof fn lemma_stop_is_in_the_plan(
    irs: Seq<IR>,
    error: PlanError,
    plan: LogicalTree,
    arena: Arena<AExpr>,
    state: ConversionState,
)
    requires
        represents(irs, plan),
        stops(error, plan, arena, state),
    ensures
        error_in(error, plan),
    decreases plan,
{
    if node_stops(error, plan, arena, state) {
        if !(ir_kind(plan.ir) is MemorySink) && !(ir_kind(plan.ir) is FileSink) {
            assert(first_exprs(plan.ir).len() <= ir_exprs(plan.ir).len());
            assert(other_exprs(plan.ir).len() <= ir_exprs(plan.ir).len());
            assert(error is Expression);
        }
    } else {
        let i = choose|i: int|
            #![trigger plan.inputs[i]]
            0 <= i < plan.inputs.len() && stops(error, plan.inputs[i], arena, state);
        lemma_stop_is_in_the_plan(irs, error, plan.inputs[i], arena, state);
    }
}

/// An error of planning comes from a sink or from an expression of the plan.
pub proof fn law_errors_come_from_the_plan(
    irs: Seq<IR>,
    error: PlanError,
    count: int,
    plan: LogicalTree,
    arena: Arena<AExpr>,
    state: ConversionState,
)
    requires
        represents(irs, plan),
        fails(error, count, plan, arena, state),
    ensures
        error_in(error, plan),
{
    law_errors_have_a_node(irs, error, count, plan, arena, state);
    lemma_stop_is_in_the_plan(irs, error, plan, arena, state);
}

proof fn lemma_orders_room(plans: Seq<LogicalTree>, i: int)
    requires
        0 <= i < plans.len(),
    ensures
        orders(plans.subrange(0, i)).len() + order(plans[i]).len() <= orders(plans).len(),
{
    let next = plans.subrange(0, i + 1);
    lemma_orders_split(plans, i + 1);
    assert(next.subrange(0, i) =~= plans.subrange(0, i));
    assert(next[i] == plans[i]);
}

/// Planning that fails has taken the root of the plan, and no more nodes than the plan has.
pub proof fn law_failed_planning_stops_at_a_node(
    irs: Seq<IR>,
    error: PlanError,
    count: int,
    plan: LogicalTree,
    arena: Arena<AExpr>,
    state: ConversionState,
)
    requires
        represents(irs, plan),
        fails(error, count, plan, arena, state),
    ensures
        1 <= count <= order(plan).len(),
    decreases plan,
{
    assert(order(plan).len() == 1 + below(plan).len());
    if inputs_fail(error, count - 1, plan, arena, state) {
        let i = choose|i: int|
            #![trigger plan.inputs[i]]
            0 <= i < plan.inputs.len() && fails(
                error,
                count - 1 - orders(plan.inputs.subrange(0, i)).len(),
                plan.inputs[i],
                arena,
                state,
            );
        law_failed_planning_stops_at_a_node(
            irs,
            error,
            count - 1 - orders(plan.inputs.subrange(0, i)).len(),
            plan.inputs[i],
            arena,
            state,
        );
        lemma_orders_room(plan.inputs, i);
    }
}

/// Planning takes the root of a plan out of the arena, whether it is done or fails.
pub proof fn law_root_is_taken(
    result: Result<Executor, PlanError>,
    before: Seq<IR>,
    after: Seq<IR>,
    plan: LogicalTree,
    arena: Arena<AExpr>,
    state: ConversionState,
)
    requires
        represents(before, plan),
        may_result(result, before, after, plan, arena, state),
    ensures
        ir_kind(after[plan.node as int]) is Invalid,
        !is_plan(after, plan.node, false),
        !is_plan(after, plan.node, true),
{
    let nodes = order(plan);
    assert(nodes[0] == plan.node);
    let count = match result {
        Ok(_) => nodes.len() as int,
        Err(error) => {
            let count = choose|count: int| #[trigger]
                taken(before, after, nodes, count) && fails(error, count, plan, arena, state);
            law_failed_planning_stops_at_a_node(before, error, count, plan, arena, state);
            count
        },
    };
    assert(taken(before, after, nodes, count));
    assert(nodes.take(count)[0] == plan.node);
    assert(ir_kind(after[plan.node as int]) is Invalid);
}

/// Planning changes the nodes of the plan and no others, and keeps the size of the arena,
/// whether it is done or fails. The root is taken in both cases, and where planning is
/// done, every node is.
pub proof fn law_only_the_plan_is_taken(
    result: Result<Executor, PlanError>,
    before: Seq<IR>,
    after: Seq<IR>,
    plan: LogicalTree,
    arena: Arena<AExpr>,
    state: ConversionState,
)
    requires
        represents(before, plan),
        may_result(result, before, after, plan, arena, state),
    ensures
        after.len() == before.len(),
        forall|n: usize|
            #![trigger after[n as int]]
            n < before.len() && !has_node(plan, n) ==> after[n as int] == before[n as int],
        ir_kind(after[plan.node as int]) is Invalid,
        result is Ok ==> forall|n: usize| #[trigger]
            has_node(plan, n) ==> ir_kind(after[n as int]) is Invalid,
{
    law_root_is_taken(result, before, after, plan, arena, state);
    let nodes = order(plan);
    assert(nodes.take(nodes.len() as int) =~= nodes);
    assert forall|n: usize|
        #![trigger after[n as int]]
        n < before.len() && !has_node(plan, n) implies after[n as int] == before[n as int] by {
        lemma_order_nodes(plan, n);
        assert forall|count: int| 0 <= count <= nodes.len() implies !(#[trigger] nodes.take(
            count,
        )).contains(n) by {
            if nodes.take(count).contains(n) {
                let k = choose|k: int| 0 <= k < count && nodes.take(count)[k] == n;
                assert(nodes[k] == n);
            }
        }
    }
    if result is Ok {
        assert forall|n: usize| #[trigger] has_node(plan, n) implies ir_kind(
            after[n as int],
        ) is Invalid by {
            lemma_order_nodes(plan, n);
            lemma_nodes_in_arena(before, plan, n);
        }
    }
}

/// A plan without a sink and without expressions is planned: no error can come of it.
pub proof fn law_plans_without_expressions_succeed(
    irs: Seq<IR>,
    error: PlanError,
    count: int,
    plan: LogicalTree,
    arena: Arena<AExpr>,
    state: ConversionState,
)
    requires
        represents(irs, plan),
        !halts(plan),
        !has_exprs(plan),
    ensures
        !fails(error, count, plan, arena, state),
{
    if fails(error, count, plan, arena, state) {
        law_errors_come_from_the_plan(irs, error, count, plan, arena, state);
        match error {
            PlanError::FileSink { file_type } => {
                lemma_sinks_halt(plan, file_type@);
            },
            _ => {
                lemma_sinks_halt(plan, Seq::empty());
            },
        }
    }
}

proof fn lemma_sinks_halt(plan: LogicalTree, file_type: Seq<char>)
    ensures
        has_memory_sink(plan) || has_file_sink(plan, file_type) ==> halts(plan),
    decreases plan,
{
    assert forall|i: int| #![trigger plan.inputs[i]] 0 <= i < plan.inputs.len() && (has_memory_sink(
        plan.inputs[i],
    ) || has_file_sink(plan.inputs[i], file_type)) implies halts(plan.inputs[i]) by {
        lemma_sinks_halt(plan.inputs[i], file_type);
    }
}

/// A plan that has been planned is used up: under none of its places a plan is left, so
/// that it cannot be planned again.
pub proof fn law_planned_plan_is_used_up(
    before: Seq<IR>,
    after: Seq<IR>,
    plan: LogicalTree,
    node: usize,
)
    requires
        represents(before, plan),
        all_taken(before, after, order(plan)),
        has_node(plan, node),
    ensures
        !is_plan(after, node, false),
        !is_plan(after, node, true),
{
    lemma_order_nodes(plan, node);
    let nodes = order(plan);
    assert(nodes.take(nodes.len() as int) =~= nodes);
    lemma_nodes_in_arena(before, plan, node);
    assert forall|left: LogicalTree| left.node == node implies !(#[trigger] represents(
        after,
        left,
    )) by {
        let _ = after[node as int];
    }
}

/// Planning leaves other plans alone: one that shares no node with the planned plan still
/// stands where it stood, whether planning was done or not.
pub proof fn law_other_plans_stay(
    before: Seq<IR>,
    after: Seq<IR>,
    plan: LogicalTree,
    count: int,
    other: LogicalTree,
)
    requires
        taken(before, after, order(plan), count),
        represents(before, other),
        forall|n: usize| #[trigger] has_node(other, n) ==> !has_node(plan, n),
    ensures
        represents(after, other),
{
    assert forall|n: usize| #[trigger] has_node(other, n) implies !order(plan).contains(n) by {
        lemma_order_nodes(plan, n);
    }
    lemma_plan_untaken(before, after, order(plan), count, other);
}

proof fn lemma_counts_agree(executors: Seq<Executor>, plans: Seq<LogicalTree>)
    requires
        executors.len() == plans.len(),
        forall|i: int|
            #![trigger plans[i]]
            0 <= i < plans.len() ==> executor_count(executors[i]) == node_count(plans[i]),
    ensures
        executor_counts(executors) == node_counts(plans),
    decreases plans.len(),
{
    if plans.len() > 0 {
        let last = plans.len() - 1;
        let fewer = plans.subrange(0, last);
        assert forall|i: int| #![trigger fewer[i]] 0 <= i < fewer.len() implies executor_count(
            executors.subrange(0, last)[i],
        ) == node_count(fewer[i]) by {
            assert(fewer[i] == plans[i]);
        }
        lemma_counts_agree(executors.subrange(0, last), fewer);
        assert(executor_count(executors[last]) == node_count(plans[last]));
    }
}

proof fn lemma_count_first(plans: Seq<LogicalTree>)
    requires
        plans.len() > 0,
    ensures
        node_counts(plans) == node_count(plans[0]) + node_counts(
            plans.subrange(1, plans.len() as int),
        ),
    decreases plans.len(),
{
    let len = plans.len() as int;
    let fewer = plans.subrange(0, len - 1);
    let others = plans.subrange(1, len);
    if len > 1 {
        lemma_count_first(fewer);
        assert(fewer.subrange(1, len - 1) =~= others.subrange(0, len - 2));
        assert(others[len - 2] == plans[len - 1]);
    } else {
        assert(node_counts(fewer) == 0);
        assert(node_counts(others) == 0);
    }
}

/// Each node of a plan becomes exactly one executor.
pub proof fn law_one_executor_per_node(
    irs: Seq<IR>,
    executor: Executor,
    plan: LogicalTree,
    arena: Arena<AExpr>,
    state: ConversionState,
)
    requires
        represents(irs, plan),
        plans(executor, plan, arena, state),
    ensures
        executor_count(executor) == node_count(plan),
    decreases plan,
{
    let all = plan.inputs;
    match executor {
        Executor::Union { inputs, .. } => {
            assert forall|i: int| #![trigger plan.inputs[i]] 0 <= i < plan.inputs.len() implies
                executor_count(inputs@[i]) == node_count(plan.inputs[i]) by {
                law_one_executor_per_node(irs, inputs@[i], plan.inputs[i], arena, state);
            }
            lemma_counts_agree(inputs@, plan.inputs);
        },
        Executor::HConcat { inputs, .. } => {
            assert forall|i: int| #![trigger plan.inputs[i]] 0 <= i < plan.inputs.len() implies
                executor_count(inputs@[i]) == node_count(plan.inputs[i]) by {
                law_one_executor_per_node(irs, inputs@[i], plan.inputs[i], arena, state);
            }
            lemma_counts_agree(inputs@, plan.inputs);
        },
        Executor::ExternalContext { input, contexts } => {
            let others = all.subrange(1, all.len() as int);
            assert forall|i: int| #![trigger others[i]] 0 <= i < others.len() implies executor_count(
                contexts@[i],
            ) == node_count(others[i]) by {
                assert(others[i] == plan.inputs[i + 1]);
                law_one_executor_per_node(irs, contexts@[i], plan.inputs[i + 1], arena, state);
            }
            lemma_counts_agree(contexts@, others);
            law_one_executor_per_node(irs, *input, plan.inputs[0], arena, state);
            lemma_count_first(all);
        },
        Executor::Join { input_left, input_right, .. } => {
            law_one_executor_per_node(irs, *input_left, plan.inputs[0], arena, state);
            law_one_executor_per_node(irs, *input_right, plan.inputs[1], arena, state);
            assert(node_counts(all.subrange(0, 1).subrange(0, 0)) == 0);
            assert(node_counts(all.subrange(0, 1)) == node_count(all[0]));
            assert(node_counts(all) == node_count(all[0]) + node_count(all[1]));
        },
        Executor::Slice { input, .. }
        | Executor::Filter { input, .. }
        | Executor::Projection { input, .. }
        | Executor::Sort { input, .. }
        | Executor::Cache { input, .. }
        | Executor::Unique { input, .. }
        | Executor::GroupBy { input, .. }
        | Executor::Stack { input, .. }
        | Executor::Udf { input, .. }
        | Executor::ProjectionSimple { input, .. } => {
            law_one_executor_per_node(irs, *input, plan.inputs[0], arena, state);
            assert(node_counts(all.subrange(0, 0)) == 0);
            assert(node_counts(all) == node_count(all[0]));
        },
        _ => {
            assert(node_counts(plan.inputs) == 0);
        },
    }
}

/// The sides of a join that read a file in common do not run in parallel, unless that is
/// forced.
pub proof fn law_shared_source_is_not_parallel(
    executor: Executor,
    plan: LogicalTree,
    arena: Arena<AExpr>,
    state: ConversionState,
)
    requires
        plans(executor, plan, arena, state),
        ir_kind(plan.ir) matches NodeKind::Join { force_parallel, .. } && !force_parallel,
        share_source(plan.inputs[0], plan.inputs[1]),
    ensures
        executor matches Executor::Join { parallel, .. } && !parallel,
{
}

/// A filter on categorical columns works on all rows at once, unless the string cache is
/// on.
pub proof fn law_categoricals_need_the_string_cache(
    executor: Executor,
    plan: LogicalTree,
    arena: Arena<AExpr>,
    state: ConversionState,
)
    requires
        plans(executor, plan, arena, state),
        ir_kind(plan.ir) is Filter,
        state.string_cache == Setting::Given(false),
        forall|schema: Arc<Schema<DataType>>| #[trigger]
            schema_answers(plan.inputs[0]).contains(schema) ==> has_categoricals(*schema),
    ensures
        executor matches Executor::Filter { streamable, .. } && !streamable,
{
}

/// A fetch reads its own number of rows of each scan, from where the scan's slice starts.
pub proof fn law_fetch_limits_scans(
    executor: Executor,
    plan: LogicalTree,
    arena: Arena<AExpr>,
    state: ConversionState,
    fetched: usize,
)
    requires
        plans(executor, plan, arena, state),
        ir_kind(plan.ir) is Scan,
        state.fetch_rows == Setting::Given(Some(fetched)),
    ensures
        executor matches Executor::Scan { slice: Some((offset, rows)), .. } && rows == fetched
            && (ir_kind(plan.ir) matches NodeKind::Scan { slice: own, .. } ==> offset == match own {
            Some((from, _)) => from as int,
            None => 0,
        }),
{
}

/// Only several files go to the reader for several files, and never those of a function of
/// the user's.
pub proof fn law_multi_reader_reads_several_files(
    executor: Executor,
    plan: LogicalTree,
    arena: Arena<AExpr>,
    state: ConversionState,
)
    requires
        plans(executor, plan, arena, state),
        executor matches Executor::Scan { reader, .. } && reader is MultiScan,
    ensures
        state.multi_file,
        ir_kind(plan.ir) matches NodeKind::Scan { sources, format, .. } && sources > 1 && format
            != ScanFormat::Anonymous,
{
}

/// A group-by that works on partitions has one or two keys, each a single node, and no
/// function of the user's.
pub proof fn law_partitioned_groups_have_simple_keys(
    executor: Executor,
    plan: LogicalTree,
    arena: Arena<AExpr>,
    state: ConversionState,
)
    requires
        plans(executor, plan, arena, state),
        executor matches Executor::GroupBy { grouping: Grouping::Partitioned { .. }, .. },
    ensures
        1 <= first_exprs(plan.ir).len() <= 2,
        keys_are_simple(first_exprs(plan.ir), arena, false),
        ir_kind(plan.ir) matches NodeKind::GroupBy { has_apply, dynamic, rolling, .. } && !has_apply
            && !dynamic && !rolling,
{
}

/// Two keys make a group-by work on partitions exactly where each of them alone does, in
/// either order.
pub proof fn law_keys_are_judged_one_by_one(
    left: ExprIR,
    right: ExprIR,
    aggs: Seq<ExprIR>,
    schema: Arc<Schema<DataType>>,
    arena: Arena<AExpr>,
    has_apply: bool,
    both: bool,
    turned: bool,
    left_alone: bool,
    right_alone: bool,
)
    requires
        may_partition(seq![left, right], aggs, schema, arena, has_apply, both),
        may_partition(seq![right, left], aggs, schema, arena, has_apply, turned),
        may_partition(seq![left], aggs, schema, arena, has_apply, left_alone),
        may_partition(seq![right], aggs, schema, arena, has_apply, right_alone),
    ensures
        both == turned,
        both == (left_alone && right_alone),
{
    let nodes = expr_nodes(arena);
    let single = |key: ExprIR|
        size(expr_shape(key, arena)) <= 1 && !has_literal_series(nodes, expr_shape(key, arena));
    assert(keys_are_simple(seq![left], arena, has_apply) == (!has_apply && single(left))) by {
        assert(seq![left][0] == left);
    }
    assert(keys_are_simple(seq![right], arena, has_apply) == (!has_apply && single(right))) by {
        assert(seq![right][0] == right);
    }
    assert(keys_are_simple(seq![left, right], arena, has_apply) == (!has_apply && single(left)
        && single(right))) by {
        assert(seq![left, right][0] == left);
        assert(seq![left, right][1] == right);
    }
    assert(keys_are_simple(seq![right, left], arena, has_apply) == (!has_apply && single(left)
        && single(right))) by {
        assert(seq![right, left][0] == right);
        assert(seq![right, left][1] == left);
    }
}

/// A projection of nothing but literals is not spread over threads row by row, which would
/// give one row per thread.
pub proof fn law_literals_are_not_spread(
    executor: Executor,
    plan: LogicalTree,
    arena: Arena<AExpr>,
    state: ConversionState,
)
    requires
        plans(executor, plan, arena, state),
        executor matches Executor::Projection { exprs, .. } && all_literal(exprs@),
    ensures
        executor matches Executor::Projection { allow_vertical_parallelism, .. }
            && !allow_vertical_parallelism,
{
}

} // verus!
