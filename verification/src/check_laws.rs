//! What the checks before planning promise, said of the nodes of a plan.
use crate::checks::{asks_for_threads, vouched};
use crate::expression::{all_shallow, expr_node, expr_nodes, expr_shape, is_shallow, stands};
use crate::expression_laws::law_shallow_expressions;
use crate::graph::size;
use crate::graph_laws::reaches;
use crate::logical::{
    carries_schema, has_node, ir_cross_filter, ir_exprs, ir_inputs, ir_kind, lemma_plan_at,
    looked_inputs, plan_at, represents, LogicalTree,
};
use crate::order::orders;
use crate::physical::{fails, inputs_fail, plannable, plans, ready, Executor};
use crate::state::{ConversionState, PlanError};
use polars_plan::prelude::expr_ir::ExprIR;
use polars_plan::prelude::{AExpr, Arena, IR};
use vstd::prelude::*;

verus! {

/// Which schemas are written in a plan. A mapped function has none that is; a union, a cache,
/// a sort, a filter, a slice, a sink and the dropping of duplicates have that of their first
/// input, if they have an input; every other node has its own.
pub proof fn law_written_schemas(irs: Seq<IR>, plan: LogicalTree)
    requires
        represents(irs, plan),
    ensures
        ir_kind(plan.ir) is MapFunction ==> !carries_schema(plan),
        ir_kind(plan.ir) is Union || ir_kind(plan.ir) is Cache || ir_kind(plan.ir) is Sort
            || ir_kind(plan.ir) is Filter || ir_kind(plan.ir) is Slice || ir_kind(
            plan.ir,
        ) is MemorySink || ir_kind(plan.ir) is FileSink || ir_kind(plan.ir) is Distinct
            ==> carries_schema(plan) == (plan.inputs.len() > 0 && carries_schema(plan.inputs[0])),
        ir_kind(plan.ir) is Scan || ir_kind(plan.ir) is DataFrameScan || ir_kind(
            plan.ir,
        ) is Select || ir_kind(plan.ir) is HStack || ir_kind(plan.ir) is GroupBy || ir_kind(
            plan.ir,
        ) is Join || ir_kind(plan.ir) is HConcat || ir_kind(plan.ir) is ExtContext || ir_kind(
            plan.ir,
        ) is SimpleProjection ==> carries_schema(plan),
{
}

/// Whether an expression stands in the arena, no node that can be reached from its root calls
/// a function, and it has fewer nodes than the limit of depth, unless there is no limit.
pub open spec fn settled(expr: ExprIR, arena: Arena<AExpr>, depth: u16) -> bool {
    let nodes = expr_nodes(arena);
    let edges = Seq::new(nodes.len(), |n: int| nodes[n].inputs);
    &&& stands(expr, arena)
    &&& forall|n: usize| #[trigger]
        reaches(edges, expr_node(expr), n) ==> !nodes[n as int].function
    &&& depth == 0 || size(expr_shape(expr, arena)) < depth
}

/// Whether all expressions of a node are settled, and the schemas that are needed for the node
/// are written below it.
pub open spec fn node_settled(irs: Seq<IR>, n: usize, arena: Arena<AExpr>, depth: u16) -> bool {
    let ir = irs[n as int];
    &&& forall|i: int|
        #![trigger ir_exprs(ir)[i]]
        0 <= i < ir_exprs(ir).len() ==> settled(ir_exprs(ir)[i], arena, depth)
    &&& ir_kind(ir) is Join ==> (ir_cross_filter(ir) matches Some((predicate, _)) ==> settled(
        predicate,
        arena,
        depth,
    ))
    &&& ir_kind(ir) is Filter || ir_kind(ir) is Select || ir_kind(ir) is HStack || ir_kind(
        ir,
    ) is Sort || ir_kind(ir) is GroupBy || ir_kind(ir) is Join ==> forall|i: int|
        #![trigger ir_inputs(ir)[i]]
        0 <= i < ir_inputs(ir).len() ==> carries_schema(plan_at(irs, ir_inputs(ir)[i], true))
}

proof fn lemma_shallow_is_settled(expr: ExprIR, arena: Arena<AExpr>, depth: u16)
    ensures
        is_shallow(expr, arena, depth) <==> settled(expr, arena, depth),
{
    let one = seq![expr];
    law_shallow_expressions(one, arena, depth);
    assert(one[0] == expr);
    assert(all_shallow(one, arena, depth) <==> is_shallow(expr, arena, depth));
}

/// A plan is vouched for where its root is a sink, of which planning asks nothing, and
/// otherwise exactly where its root is settled and all its inputs are vouched for.
pub proof fn law_vouched_through_inputs(
    irs: Seq<IR>,
    plan: LogicalTree,
    arena: Arena<AExpr>,
    depth: u16,
)
    requires
        represents(irs, plan),
    ensures
        ir_kind(plan.ir) is MemorySink || ir_kind(plan.ir) is FileSink ==> vouched(
            plan,
            arena,
            depth,
        ),
        !(ir_kind(plan.ir) is MemorySink) && !(ir_kind(plan.ir) is FileSink) ==> (vouched(
            plan,
            arena,
            depth,
        ) <==> node_settled(irs, plan.node, arena, depth) && forall|i: int|
            #![trigger plan.inputs[i]]
            0 <= i < plan.inputs.len() ==> vouched(plan.inputs[i], arena, depth)),
{
    let ir = plan.ir;
    let exprs = ir_exprs(ir);
    assert forall|expr: ExprIR| #[trigger]
        is_shallow(expr, arena, depth) <==> settled(expr, arena, depth) by {
        lemma_shallow_is_settled(expr, arena, depth);
    }
    assert forall|expr: ExprIR| #[trigger]
        settled(expr, arena, depth) <==> is_shallow(expr, arena, depth) by {
        lemma_shallow_is_settled(expr, arena, depth);
    }
    assert(all_shallow(exprs, arena, depth) <==> forall|i: int|
        #![trigger ir_exprs(ir)[i]]
        0 <= i < ir_exprs(ir).len() ==> settled(ir_exprs(ir)[i], arena, depth)) by {
        if all_shallow(exprs, arena, depth) {
            assert forall|i: int|
                #![trigger ir_exprs(ir)[i]]
                0 <= i < ir_exprs(ir).len() implies settled(ir_exprs(ir)[i], arena, depth) by {
                assert(is_shallow(exprs[i], arena, depth));
            }
        }
    }
    if ir_kind(ir) is Filter || ir_kind(ir) is Select || ir_kind(ir) is HStack || ir_kind(
        ir,
    ) is Sort || ir_kind(ir) is GroupBy || ir_kind(ir) is Join {
        assert(plan.inputs.len() == ir_inputs(ir).len());
        assert forall|i: int| #![trigger plan.inputs[i]] 0 <= i < plan.inputs.len() implies
            plan.inputs[i] == plan_at(irs, ir_inputs(ir)[i], true) by {
            assert(plan.inputs[i].node == looked_inputs(ir, plan.asked)[i]);
            lemma_plan_at(irs, plan.inputs[i]);
        }
        assert forall|i: int| #![trigger ir_inputs(ir)[i]] 0 <= i < ir_inputs(ir).len() implies
            plan.inputs[i] == plan_at(irs, ir_inputs(ir)[i], true) by {}
    }
}

proof fn lemma_settled_plans_are_vouched(
    irs: Seq<IR>,
    plan: LogicalTree,
    arena: Arena<AExpr>,
    depth: u16,
)
    requires
        represents(irs, plan),
        forall|n: usize| #[trigger]
            has_node(plan, n) ==> ir_kind(irs[n as int]) is MemorySink || ir_kind(
                irs[n as int],
            ) is FileSink || node_settled(irs, n, arena, depth),
    ensures
        vouched(plan, arena, depth),
    decreases plan,
{
    law_vouched_through_inputs(irs, plan, arena, depth);
    assert(has_node(plan, plan.node));
    assert forall|i: int| #![trigger plan.inputs[i]] 0 <= i < plan.inputs.len() implies vouched(
        plan.inputs[i],
        arena,
        depth,
    ) by {
        assert forall|n: usize| #[trigger] has_node(plan.inputs[i], n) implies ir_kind(
            irs[n as int],
        ) is MemorySink || ir_kind(irs[n as int]) is FileSink || node_settled(
            irs,
            n,
            arena,
            depth,
        ) by {
            assert(has_node(plan, n));
        }
        lemma_settled_plans_are_vouched(irs, plan.inputs[i], arena, depth);
    }
}

proof fn lemma_vouched_plans_are_settled(
    irs: Seq<IR>,
    plan: LogicalTree,
    arena: Arena<AExpr>,
    depth: u16,
    n: usize,
)
    requires
        represents(irs, plan),
        vouched(plan, arena, depth),
        has_node(plan, n),
        forall|m: usize| #[trigger]
            has_node(plan, m) ==> !(ir_kind(irs[m as int]) is MemorySink) && !(ir_kind(
                irs[m as int],
            ) is FileSink),
    ensures
        node_settled(irs, n, arena, depth),
    decreases plan,
{
    law_vouched_through_inputs(irs, plan, arena, depth);
    assert(has_node(plan, plan.node));
    if n != plan.node {
        let i = choose|i: int|
            #![trigger plan.inputs[i]]
            0 <= i < plan.inputs.len() && has_node(plan.inputs[i], n);
        assert forall|m: usize| #[trigger] has_node(plan.inputs[i], m) implies !(ir_kind(
            irs[m as int],
        ) is MemorySink) && !(ir_kind(irs[m as int]) is FileSink) by {
            assert(has_node(plan, m));
        }
        lemma_vouched_plans_are_settled(irs, plan.inputs[i], arena, depth, n);
    }
}

/// A plan is vouched for where every node of it is a sink or settled; and where no node is a
/// sink, only there.
pub proof fn law_vouched_plans_are_settled(
    irs: Seq<IR>,
    plan: LogicalTree,
    arena: Arena<AExpr>,
    depth: u16,
)
    requires
        represents(irs, plan),
    ensures
        (forall|n: usize| #[trigger]
            has_node(plan, n) ==> ir_kind(irs[n as int]) is MemorySink || ir_kind(
                irs[n as int],
            ) is FileSink || node_settled(irs, n, arena, depth)) ==> vouched(plan, arena, depth),
        (forall|n: usize| #[trigger]
            has_node(plan, n) ==> !(ir_kind(irs[n as int]) is MemorySink) && !(ir_kind(
                irs[n as int],
            ) is FileSink)) && vouched(plan, arena, depth) ==> forall|n: usize| #[trigger]
            has_node(plan, n) ==> node_settled(irs, n, arena, depth),
{
    if forall|n: usize| #[trigger]
        has_node(plan, n) ==> ir_kind(irs[n as int]) is MemorySink || ir_kind(
            irs[n as int],
        ) is FileSink || node_settled(irs, n, arena, depth) {
        lemma_settled_plans_are_vouched(irs, plan, arena, depth);
    }
    if (forall|n: usize| #[trigger]
        has_node(plan, n) ==> !(ir_kind(irs[n as int]) is MemorySink) && !(ir_kind(
            irs[n as int],
        ) is FileSink)) && vouched(plan, arena, depth) {
        assert forall|n: usize| #[trigger] has_node(plan, n) implies node_settled(
            irs,
            n,
            arena,
            depth,
        ) by {
            lemma_vouched_plans_are_settled(irs, plan, arena, depth, n);
        }
    }
}

proof fn lemma_spread_is_a_node(irs: Seq<IR>, plan: LogicalTree)
    requires
        represents(irs, plan),
        asks_for_threads(plan),
    ensures
        exists|n: usize| #[trigger]
            has_node(plan, n) && (ir_kind(irs[n as int]) is Select || ir_kind(
                irs[n as int],
            ) is HStack),
    decreases plan,
{
    if ir_kind(plan.ir) is Select || ir_kind(plan.ir) is HStack {
        assert(has_node(plan, plan.node));
    } else {
        let i = choose|i: int|
            #![trigger plan.inputs[i]]
            0 <= i < plan.inputs.len() && asks_for_threads(plan.inputs[i]);
        lemma_spread_is_a_node(irs, plan.inputs[i]);
        let n = choose|n: usize| #[trigger]
            has_node(plan.inputs[i], n) && (ir_kind(irs[n as int]) is Select || ir_kind(
                irs[n as int],
            ) is HStack);
        assert(has_node(plan, n));
    }
}

proof fn lemma_node_spreads(irs: Seq<IR>, plan: LogicalTree, n: usize)
    requires
        represents(irs, plan),
        has_node(plan, n),
        ir_kind(irs[n as int]) is Select || ir_kind(irs[n as int]) is HStack,
        forall|m: usize| #[trigger]
            has_node(plan, m) ==> !(ir_kind(irs[m as int]) is MemorySink) && !(ir_kind(
                irs[m as int],
            ) is FileSink),
    ensures
        asks_for_threads(plan),
    decreases plan,
{
    assert(has_node(plan, plan.node));
    if n != plan.node {
        let i = choose|i: int|
            #![trigger plan.inputs[i]]
            0 <= i < plan.inputs.len() && has_node(plan.inputs[i], n);
        assert forall|m: usize| #[trigger] has_node(plan.inputs[i], m) implies !(ir_kind(
            irs[m as int],
        ) is MemorySink) && !(ir_kind(irs[m as int]) is FileSink) by {
            assert(has_node(plan, m));
        }
        lemma_node_spreads(irs, plan.inputs[i], n);
    }
}

/// Planning asks for the number of threads only where a node of the plan computes columns; and
/// in a plan without a sink, wherever one does. It does not where the root is a sink.
pub proof fn law_columns_ask_for_threads(irs: Seq<IR>, plan: LogicalTree)
    requires
        represents(irs, plan),
    ensures
        ir_kind(plan.ir) is MemorySink || ir_kind(plan.ir) is FileSink ==> !asks_for_threads(plan),
        asks_for_threads(plan) ==> exists|n: usize| #[trigger]
            has_node(plan, n) && (ir_kind(irs[n as int]) is Select || ir_kind(
                irs[n as int],
            ) is HStack),
        (forall|m: usize| #[trigger]
            has_node(plan, m) ==> !(ir_kind(irs[m as int]) is MemorySink) && !(ir_kind(
                irs[m as int],
            ) is FileSink)) && (exists|n: usize| #[trigger]
            has_node(plan, n) && (ir_kind(irs[n as int]) is Select || ir_kind(
                irs[n as int],
            ) is HStack)) ==> asks_for_threads(plan),
{
    if asks_for_threads(plan) {
        lemma_spread_is_a_node(irs, plan);
    }
    if (forall|m: usize| #[trigger]
        has_node(plan, m) ==> !(ir_kind(irs[m as int]) is MemorySink) && !(ir_kind(
            irs[m as int],
        ) is FileSink)) && (exists|n: usize| #[trigger]
        has_node(plan, n) && (ir_kind(irs[n as int]) is Select || ir_kind(
            irs[n as int],
        ) is HStack)) {
        let n = choose|n: usize| #[trigger]
            has_node(plan, n) && (ir_kind(irs[n as int]) is Select || ir_kind(
                irs[n as int],
            ) is HStack);
        lemma_node_spreads(irs, plan, n);
    }
}

/// Whether two surroundings differ in nothing but the number of threads.
pub open spec fn same_but_threads(a: ConversionState, b: ConversionState) -> bool {
    &&& a.expr_depth == b.expr_depth
    &&& a.string_cache == b.string_cache
    &&& a.fetch_rows == b.fetch_rows
    &&& a.multi_file == b.multi_file
}

proof fn lemma_plans_without_threads(
    executor: Executor,
    plan: LogicalTree,
    arena: Arena<AExpr>,
    a: ConversionState,
    b: ConversionState,
)
    requires
        !asks_for_threads(plan),
        same_but_threads(a, b),
        plans(executor, plan, arena, a),
    ensures
        plans(executor, plan, arena, b),
    decreases plan,
{
    match executor {
        Executor::Union { inputs, .. } | Executor::HConcat { inputs, .. } => {
            assert forall|i: int| #![trigger plan.inputs[i]] 0 <= i < plan.inputs.len() implies
                plans(inputs@[i], plan.inputs[i], arena, b) by {
                lemma_plans_without_threads(inputs@[i], plan.inputs[i], arena, a, b);
            }
        },
        Executor::ExternalContext { input, contexts } => {
            let first = plan.inputs[0];
            lemma_plans_without_threads(*input, first, arena, a, b);
            assert forall|i: int| #![trigger plan.inputs[i]] 0 < i < plan.inputs.len() implies
                plans(contexts@[i - 1], plan.inputs[i], arena, b) by {
                lemma_plans_without_threads(contexts@[i - 1], plan.inputs[i], arena, a, b);
            }
        },
        Executor::Join { input_left, input_right, .. } => {
            let left = plan.inputs[0];
            let right = plan.inputs[1];
            lemma_plans_without_threads(*input_left, left, arena, a, b);
            lemma_plans_without_threads(*input_right, right, arena, a, b);
        },
        Executor::Slice { input, .. }
        | Executor::Filter { input, .. }
        | Executor::Sort { input, .. }
        | Executor::Cache { input, .. }
        | Executor::Unique { input, .. }
        | Executor::GroupBy { input, .. }
        | Executor::Udf { input, .. }
        | Executor::ProjectionSimple { input, .. } => {
            let first = plan.inputs[0];
            lemma_plans_without_threads(*input, first, arena, a, b);
        },
        _ => {},
    }
}

proof fn lemma_plannable_without_threads(
    plan: LogicalTree,
    arena: Arena<AExpr>,
    a: ConversionState,
    b: ConversionState,
)
    requires
        !asks_for_threads(plan),
        same_but_threads(a, b),
        plannable(plan, arena, a),
    ensures
        plannable(plan, arena, b),
{
    let executor = choose|executor: Executor| #[trigger] plans(executor, plan, arena, a);
    lemma_plans_without_threads(executor, plan, arena, a, b);
}

proof fn lemma_fails_without_threads(
    irs: Seq<IR>,
    error: PlanError,
    count: int,
    plan: LogicalTree,
    arena: Arena<AExpr>,
    a: ConversionState,
    b: ConversionState,
)
    requires
        represents(irs, plan),
        !asks_for_threads(plan),
        same_but_threads(a, b),
        fails(error, count, plan, arena, a),
    ensures
        fails(error, count, plan, arena, b),
    decreases plan,
{
    if !(ir_kind(plan.ir) is MemorySink) && !(ir_kind(plan.ir) is FileSink) {
        assert forall|i: int| #![trigger plan.inputs[i]] 0 <= i < plan.inputs.len() && plannable(
            plan.inputs[i],
            arena,
            a,
        ) implies plannable(plan.inputs[i], arena, b) by {
            lemma_plannable_without_threads(plan.inputs[i], arena, a, b);
        }
        if inputs_fail(error, count - 1, plan, arena, a) {
            let i = choose|i: int|
                #![trigger plan.inputs[i]]
                0 <= i < plan.inputs.len() && fails(
                    error,
                    count - 1 - orders(plan.inputs.subrange(0, i)).len(),
                    plan.inputs[i],
                    arena,
                    a,
                ) && forall|j: int|
                    #![trigger plan.inputs[j]]
                    0 <= j < i ==> plannable(plan.inputs[j], arena, a);
            let below = count - 1 - orders(plan.inputs.subrange(0, i)).len();
            lemma_fails_without_threads(irs, error, below, plan.inputs[i], arena, a, b);
            assert(inputs_fail(error, count - 1, plan, arena, b));
        }
        if ir_kind(plan.ir) is Filter || ir_kind(plan.ir) is Join {
            let _ = plan.inputs[0];
            if ir_kind(plan.ir) is Join {
                let _ = plan.inputs[1];
            }
        }
    }
}

/// Where planning does not ask for the number of threads, the number has no say: the same
/// executors and the same errors may come of a plan whatever it is.
pub proof fn law_threads_matter_where_they_are_asked_for(
    irs: Seq<IR>,
    plan: LogicalTree,
    arena: Arena<AExpr>,
    a: ConversionState,
    b: ConversionState,
)
    requires
        represents(irs, plan),
        !asks_for_threads(plan),
        same_but_threads(a, b),
    ensures
        forall|executor: Executor| #[trigger]
            plans(executor, plan, arena, a) == plans(executor, plan, arena, b),
        forall|error: PlanError, count: int| #[trigger]
            fails(error, count, plan, arena, a) == fails(error, count, plan, arena, b),
        ready(plan, arena, a) == ready(plan, arena, b),
{
    assert forall|executor: Executor| #[trigger]
        plans(executor, plan, arena, a) == plans(executor, plan, arena, b) by {
        if plans(executor, plan, arena, a) {
            lemma_plans_without_threads(executor, plan, arena, a, b);
        }
        if plans(executor, plan, arena, b) {
            lemma_plans_without_threads(executor, plan, arena, b, a);
        }
    }
    assert forall|error: PlanError, count: int| #[trigger]
        fails(error, count, plan, arena, a) == fails(error, count, plan, arena, b) by {
        if fails(error, count, plan, arena, a) {
            lemma_fails_without_threads(irs, error, count, plan, arena, a, b);
        }
        if fails(error, count, plan, arena, b) {
            lemma_fails_without_threads(irs, error, count, plan, arena, b, a);
        }
    }
    lemma_ready_without_threads(plan, arena, a, b);
}

proof fn lemma_ready_without_threads(
    plan: LogicalTree,
    arena: Arena<AExpr>,
    a: ConversionState,
    b: ConversionState,
)
    requires
        !asks_for_threads(plan),
        same_but_threads(a, b),
    ensures
        ready(plan, arena, a) == ready(plan, arena, b),
    decreases plan,
{
    if !(ir_kind(plan.ir) is MemorySink) && !(ir_kind(plan.ir) is FileSink) {
        assert forall|i: int| #![trigger plan.inputs[i]] 0 <= i < plan.inputs.len() implies ready(
            plan.inputs[i],
            arena,
            a,
        ) == ready(plan.inputs[i], arena, b) by {
            lemma_ready_without_threads(plan.inputs[i], arena, a, b);
        }
    }
}

} // verus!
