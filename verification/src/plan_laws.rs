//! Which nodes belong to a plan, and in which order they are taken.
use crate::graph_laws::{law_reached_through_inputs, reaches};
use crate::logical::{
    arena_irs, distinct, halts, has_node, ir_exprs, ir_inputs, ir_kind, is_plan, is_tree,
    lemma_nodes_in_arena, lemma_plan_at, looked_inputs, looks_through, node_index, plan_at,
    planned_inputs, represents, root_plan, shape_fits, LogicalTree,
};
use crate::order::{
    below, lemma_order_nodes, lemma_orders_nodes, lemma_orders_split, order, orders, taken,
};
use crate::physical::{fails, Executor};
use crate::planner::{may_plan, may_result};
use crate::planner_laws::{
    law_errors_come_from_the_plan, law_failed_planning_stops_at_a_node, law_root_is_taken,
};
use crate::state::{ConversionState, PlanError, Setting};
use polars_plan::prelude::{AExpr, Arena, Node, IR};
use vstd::prelude::*;

verus! {

proof fn lemma_no_sink_no_halt(irs: Seq<IR>, plan: LogicalTree)
    requires
        represents(irs, plan),
        forall|m: usize| #[trigger]
            has_node(plan, m) ==> !(ir_kind(irs[m as int]) is MemorySink) && !(ir_kind(
                irs[m as int],
            ) is FileSink),
    ensures
        !halts(plan),
    decreases plan,
{
    assert(has_node(plan, plan.node));
    assert forall|i: int| #![trigger plan.inputs[i]] 0 <= i < plan.inputs.len() implies !halts(
        plan.inputs[i],
    ) by {
        assert forall|m: usize| #[trigger] has_node(plan.inputs[i], m) implies !(ir_kind(
            irs[m as int],
        ) is MemorySink) && !(ir_kind(irs[m as int]) is FileSink) by {
            assert(has_node(plan, m));
        }
        lemma_no_sink_no_halt(irs, plan.inputs[i]);
    }
}

/// Planning stops at a sink of a plan exactly where one of the nodes of the plan is a sink, to
/// memory or to a file.
pub proof fn law_sinks_halt(irs: Seq<IR>, plan: LogicalTree)
    requires
        represents(irs, plan),
    ensures
        halts(plan) <==> exists|n: usize| #[trigger]
            has_node(plan, n) && (ir_kind(irs[n as int]) is MemorySink || ir_kind(
                irs[n as int],
            ) is FileSink),
    decreases plan,
{
    if halts(plan) {
        if ir_kind(plan.ir) is MemorySink || ir_kind(plan.ir) is FileSink {
            assert(has_node(plan, plan.node));
        } else {
            let i = choose|i: int|
                #![trigger plan.inputs[i]]
                0 <= i < plan.inputs.len() && halts(plan.inputs[i]);
            law_sinks_halt(irs, plan.inputs[i]);
            let n = choose|n: usize| #[trigger]
                has_node(plan.inputs[i], n) && (ir_kind(irs[n as int]) is MemorySink || ir_kind(
                    irs[n as int],
                ) is FileSink);
            assert(has_node(plan, n));
        }
    } else {
        lemma_no_halt_no_sink(irs, plan);
    }
}

proof fn lemma_no_halt_no_sink(irs: Seq<IR>, plan: LogicalTree)
    requires
        represents(irs, plan),
        !halts(plan),
    ensures
        forall|n: usize| #[trigger]
            has_node(plan, n) ==> !(ir_kind(irs[n as int]) is MemorySink || ir_kind(
                irs[n as int],
            ) is FileSink),
    decreases plan,
{
    assert forall|n: usize| #[trigger] has_node(plan, n) implies !(ir_kind(
        irs[n as int],
    ) is MemorySink || ir_kind(irs[n as int]) is FileSink) by {
        if n != plan.node {
            let i = choose|i: int|
                #![trigger plan.inputs[i]]
                0 <= i < plan.inputs.len() && has_node(plan.inputs[i], n);
            lemma_no_halt_no_sink(irs, plan.inputs[i]);
        }
    }
}

/// Each input of a node has a place among its inputs in the order of planning.
proof fn lemma_planned_place(ir: IR, i: int) -> (j: int)
    requires
        0 <= i < ir_inputs(ir).len(),
    ensures
        0 <= j < planned_inputs(ir).len(),
        planned_inputs(ir)[j] == ir_inputs(ir)[i],
{
    if ir_kind(ir) is ExtContext {
        if i == ir_inputs(ir).len() - 1 {
            0
        } else {
            assert(planned_inputs(ir)[i + 1] == ir_inputs(ir)[i]);
            i + 1
        }
    } else {
        i
    }
}

/// Each input of a node in the order of planning is an input of the node.
proof fn lemma_input_place(ir: IR, j: int) -> (i: int)
    requires
        0 <= j < planned_inputs(ir).len(),
    ensures
        0 <= i < ir_inputs(ir).len(),
        planned_inputs(ir)[j] == ir_inputs(ir)[i],
{
    if ir_kind(ir) is ExtContext && ir_inputs(ir).len() > 0 {
        if j == 0 {
            ir_inputs(ir).len() - 1
        } else {
            assert(planned_inputs(ir)[j] == ir_inputs(ir)[j - 1]);
            j - 1
        }
    } else {
        j
    }
}

/// The nodes of a plan can be reached from its root through inputs, and are in the arena.
/// Where a node above asks for schemas or sources, or no node of the plan is a sink, they are
/// all that can be reached.
pub proof fn law_nodes_are_reached(irs: Seq<IR>, plan: LogicalTree, n: usize)
    requires
        represents(irs, plan),
    ensures
        ({
            let edges = Seq::new(irs.len(), |k: int| ir_inputs(irs[k]));
            &&& has_node(plan, n) ==> n < irs.len() && !(ir_kind(irs[n as int]) is Invalid)
                && reaches(edges, plan.node, n)
            &&& plan.asked || (forall|m: usize| #[trigger]
                has_node(plan, m) ==> !(ir_kind(irs[m as int]) is MemorySink) && !(ir_kind(
                    irs[m as int],
                ) is FileSink)) ==> (reaches(edges, plan.node, n) ==> has_node(plan, n))
        }),
    decreases plan,
{
    let edges = Seq::new(irs.len(), |k: int| ir_inputs(irs[k]));
    law_reached_through_inputs(edges, plan.node, n);
    if has_node(plan, n) {
        lemma_nodes_in_arena(irs, plan, n);
        if n != plan.node {
            let j = choose|j: int|
                #![trigger plan.inputs[j]]
                0 <= j < plan.inputs.len() && has_node(plan.inputs[j], n);
            law_nodes_are_reached(irs, plan.inputs[j], n);
            assert(plan.inputs[j].node == looked_inputs(plan.ir, plan.asked)[j]);
            let i = lemma_input_place(plan.ir, j);
            assert(reaches(edges, edges[plan.node as int][i], n));
        }
    }
    let no_sinks = forall|m: usize| #[trigger]
        has_node(plan, m) ==> !(ir_kind(irs[m as int]) is MemorySink) && !(ir_kind(
            irs[m as int],
        ) is FileSink);
    if (plan.asked || no_sinks) && reaches(edges, plan.node, n) && n != plan.node {
        assert(has_node(plan, plan.node));
        let i = choose|i: int|
            0 <= i < edges[plan.node as int].len() && #[trigger] reaches(
                edges,
                edges[plan.node as int][i],
                n,
            );
        let j = lemma_planned_place(plan.ir, i);
        assert(looked_inputs(plan.ir, plan.asked) == planned_inputs(plan.ir));
        if !plan.asked {
            assert forall|k: int| #![trigger plan.inputs[k]] 0 <= k < plan.inputs.len() implies !halts(
                plan.inputs[k],
            ) by {
                assert forall|m: usize| #[trigger] has_node(plan.inputs[k], m) implies !(ir_kind(
                    irs[m as int],
                ) is MemorySink) && !(ir_kind(irs[m as int]) is FileSink) by {
                    assert(has_node(plan, m));
                }
                lemma_no_sink_no_halt(irs, plan.inputs[k]);
            }
            if plan.inputs.len() > 0 {
                assert(!halts(plan.inputs[plan.inputs.len() - 1]));
            }
        }
        let input = plan.inputs[j];
        assert(input.node == ir_inputs(plan.ir)[i]);
        if !plan.asked {
            assert forall|m: usize| #[trigger] has_node(input, m) implies !(ir_kind(
                irs[m as int],
            ) is MemorySink) && !(ir_kind(irs[m as int]) is FileSink) by {
                assert(has_node(plan, m));
            }
        }
        law_nodes_are_reached(irs, input, n);
        assert(has_node(input, n));
    }
}

/// A plan that is looked through to the end stands under a place exactly where the place
/// holds a valid node and such plans stand under all inputs of the node.
pub proof fn law_plans_through_inputs(irs: Seq<IR>, node: usize)
    ensures
        is_plan(irs, node, true) <==> {
            &&& node < irs.len()
            &&& !(ir_kind(irs[node as int]) is Invalid)
            &&& shape_fits(
                ir_kind(irs[node as int]),
                ir_inputs(irs[node as int]).len(),
                ir_exprs(irs[node as int]).len(),
            )
            &&& forall|i: int|
                0 <= i < ir_inputs(irs[node as int]).len() ==> is_plan(
                    irs,
                    #[trigger] ir_inputs(irs[node as int])[i],
                    true,
                )
        },
{
    let ir = irs[node as int];
    if is_plan(irs, node, true) {
        let plan = plan_at(irs, node, true);
        assert forall|i: int| 0 <= i < ir_inputs(ir).len() implies is_plan(
            irs,
            #[trigger] ir_inputs(ir)[i],
            true,
        ) by {
            let j = lemma_planned_place(ir, i);
            assert(plan.inputs[j].node == looked_inputs(ir, true)[j]);
            lemma_plan_at(irs, plan.inputs[j]);
        }
    } else if node < irs.len() && !(ir_kind(ir) is Invalid) && shape_fits(
        ir_kind(ir),
        ir_inputs(ir).len(),
        ir_exprs(ir).len(),
    ) && forall|i: int|
        0 <= i < ir_inputs(ir).len() ==> is_plan(irs, #[trigger] ir_inputs(ir)[i], true) {
        let inputs = Seq::new(
            planned_inputs(ir).len(),
            |j: int| plan_at(irs, planned_inputs(ir)[j], true),
        );
        let plan = LogicalTree { node, ir, asked: true, inputs };
        assert forall|j: int| #![trigger plan.inputs[j]] 0 <= j < plan.inputs.len() implies
            plan.inputs[j].node == looked_inputs(ir, true)[j] && plan.inputs[j].asked && represents(
            irs,
            plan.inputs[j],
        ) by {
            let i = lemma_input_place(ir, j);
            assert(is_plan(irs, ir_inputs(ir)[i], true));
        }
        assert(represents(irs, plan));
    }
}

/// The inputs of a node are planned in their order, but for an external context, whose own
/// input, the last one, comes before its contexts.
pub proof fn law_planned_inputs(ir: IR)
    ensures
        planned_inputs(ir).len() == ir_inputs(ir).len(),
        !(ir_kind(ir) is ExtContext) ==> planned_inputs(ir) == ir_inputs(ir),
        ir_kind(ir) is ExtContext && ir_inputs(ir).len() > 0 ==> planned_inputs(ir)[0] == ir_inputs(
            ir,
        )[ir_inputs(ir).len() - 1] && forall|i: int, j: int|
            #![trigger planned_inputs(ir)[j], ir_inputs(ir)[i]]
            0 <= i && j == i + 1 && j < ir_inputs(ir).len() ==> planned_inputs(ir)[j]
                == ir_inputs(ir)[i],
{
}

/// Which places hold a plan that can be planned. Any sink is one. A filter, a projection, added
/// columns, a sort, a group-by and a join are where they are a plan that is looked through to
/// the end. Any other valid node is one where each of its inputs, in the order of planning,
/// is, up to the first one with a sink in it.
pub proof fn law_plans_up_to_a_sink(irs: Seq<IR>, node: usize)
    requires
        node < irs.len(),
    ensures
        ({
            let ir = irs[node as int];
            let kind = ir_kind(ir);
            &&& kind is MemorySink || kind is FileSink ==> is_plan(irs, node, false)
            &&& kind is Filter || kind is Select || kind is HStack || kind is Sort || kind is GroupBy
                || kind is Join ==> is_plan(irs, node, false) == is_plan(irs, node, true)
            &&& kind is Invalid ==> !is_plan(irs, node, false)
            &&& kind is Union || kind is HConcat || kind is Slice || kind is Scan
                || kind is DataFrameScan || kind is Cache || kind is Distinct
                || kind is MapFunction || kind is ExtContext || kind is SimpleProjection ==> (
            is_plan(irs, node, false) <==> shape_fits(
                kind,
                ir_inputs(ir).len(),
                ir_exprs(ir).len(),
            ) && forall|i: int|
                #![trigger planned_inputs(ir)[i]]
                0 <= i < planned_inputs(ir).len() && (forall|j: int|
                    #![trigger planned_inputs(ir)[j]]
                    0 <= j < i ==> !halts(plan_at(irs, planned_inputs(ir)[j], false))) ==> is_plan(
                    irs,
                    planned_inputs(ir)[i],
                    false,
                ))
        }),
{
    let ir = irs[node as int];
    let kind = ir_kind(ir);
    if kind is MemorySink || kind is FileSink {
        let plan = LogicalTree { node, ir, asked: false, inputs: Seq::empty() };
        assert(represents(irs, plan));
    } else if kind is Filter || kind is Select || kind is HStack || kind is Sort || kind is GroupBy
        || kind is Join {
        if is_plan(irs, node, false) {
            let plan = plan_at(irs, node, false);
            let other = LogicalTree { node, ir, asked: true, inputs: plan.inputs };
            assert forall|i: int| #![trigger other.inputs[i]] 0 <= i < other.inputs.len() implies
                other.inputs[i].node == looked_inputs(ir, true)[i] && other.inputs[i].asked
                && represents(irs, other.inputs[i]) by {
                assert(plan.inputs[i] == other.inputs[i]);
            }
            assert(represents(irs, other));
        }
        if is_plan(irs, node, true) {
            let plan = plan_at(irs, node, true);
            let other = LogicalTree { node, ir, asked: false, inputs: plan.inputs };
            assert forall|i: int| #![trigger other.inputs[i]] 0 <= i < other.inputs.len() implies
                other.inputs[i].node == looked_inputs(ir, false)[i] && other.inputs[i].asked
                && represents(irs, other.inputs[i]) by {
                assert(plan.inputs[i] == other.inputs[i]);
            }
            assert(represents(irs, other));
        }
    } else if !(kind is Invalid) {
        let inputs = planned_inputs(ir);
        if is_plan(irs, node, false) {
            let plan = plan_at(irs, node, false);
            assert forall|i: int|
                #![trigger planned_inputs(ir)[i]]
                0 <= i < inputs.len() && (forall|j: int|
                    #![trigger planned_inputs(ir)[j]]
                    0 <= j < i ==> !halts(plan_at(irs, inputs[j], false))) implies is_plan(
                irs,
                inputs[i],
                false,
            ) by {
                if i >= plan.inputs.len() {
                    let last = plan.inputs.len() - 1;
                    assert(plan.inputs[last].node == looked_inputs(ir, false)[last]);
                    lemma_plan_at(irs, plan.inputs[last]);
                    assert(!halts(plan_at(irs, planned_inputs(ir)[last], false)));
                }
                assert(plan.inputs[i].node == looked_inputs(ir, false)[i]);
                lemma_plan_at(irs, plan.inputs[i]);
            }
        } else if shape_fits(kind, ir_inputs(ir).len(), ir_exprs(ir).len()) && forall|i: int|
            #![trigger planned_inputs(ir)[i]]
            0 <= i < inputs.len() && (forall|j: int|
                #![trigger planned_inputs(ir)[j]]
                0 <= j < i ==> !halts(plan_at(irs, inputs[j], false))) ==> is_plan(
                irs,
                inputs[i],
                false,
            ) {
            let plan = lemma_plan_up_to_a_sink(irs, node, 0);
            assert(false);
        }
    }
}

/// Builds the plan under a node from those under its inputs, where none of the first `from` of
/// them has a sink in it.
proof fn lemma_plan_up_to_a_sink(irs: Seq<IR>, node: usize, from: int) -> (plan: LogicalTree)
    requires
        node < irs.len(),
        ({
            let ir = irs[node as int];
            let inputs = planned_inputs(ir);
            &&& !(ir_kind(ir) is Invalid)
            &&& looked_inputs(ir, false) == inputs
            &&& !looks_through(ir_kind(ir), false)
            &&& shape_fits(ir_kind(ir), ir_inputs(ir).len(), ir_exprs(ir).len())
            &&& 0 <= from <= inputs.len()
            &&& forall|j: int|
                #![trigger planned_inputs(ir)[j]]
                0 <= j < from ==> is_plan(irs, inputs[j], false) && !halts(
                    plan_at(irs, inputs[j], false),
                )
            &&& forall|i: int|
                #![trigger planned_inputs(ir)[i]]
                0 <= i < inputs.len() && (forall|j: int|
                    #![trigger planned_inputs(ir)[j]]
                    0 <= j < i ==> !halts(plan_at(irs, inputs[j], false))) ==> is_plan(
                    irs,
                    inputs[i],
                    false,
                )
        }),
    ensures
        represents(irs, plan),
        plan.node == node,
        !plan.asked,
    decreases planned_inputs(irs[node as int]).len() - from,
{
    let ir = irs[node as int];
    let all = planned_inputs(ir);
    if from < all.len() && is_plan(irs, all[from], false) && !halts(
        plan_at(irs, all[from], false),
    ) {
        lemma_plan_up_to_a_sink(irs, node, from + 1)
    } else {
        let count = if from < all.len() {
            from + 1
        } else {
            from
        };
        let inputs = Seq::new(count as nat, |j: int| plan_at(irs, all[j], false));
        let plan = LogicalTree { node, ir, asked: false, inputs };
        assert forall|j: int| #![trigger plan.inputs[j]] 0 <= j < plan.inputs.len() implies
            plan.inputs[j].node == looked_inputs(ir, false)[j] && !plan.inputs[j].asked
            && represents(irs, plan.inputs[j]) && (j < from ==> !halts(plan.inputs[j])) by {
            assert(is_plan(irs, planned_inputs(ir)[j], false));
        }
        assert(represents(irs, plan));
        plan
    }
}

/// The order of a plan adds up: first its root, then the orders of its inputs, one behind the
/// other.
pub proof fn law_orders_add_up(
    node: usize,
    ir: IR,
    asked: bool,
    first: Seq<LogicalTree>,
    rest: Seq<LogicalTree>,
    one: LogicalTree,
)
    ensures
        ({
            let alone = LogicalTree { node, ir, asked, inputs: Seq::empty() };
            let single = LogicalTree { node, ir, asked, inputs: seq![one] };
            let left = LogicalTree { node, ir, asked, inputs: first };
            let right = LogicalTree { node, ir, asked, inputs: rest };
            let both = LogicalTree { node, ir, asked, inputs: first + rest };
            &&& order(alone) == seq![node]
            &&& order(single) == seq![node] + order(one)
            &&& order(both) == order(left) + order(right).subrange(1, order(right).len() as int)
        }),
{
    let all = first + rest;
    lemma_orders_split(all, first.len() as int);
    assert(all.subrange(0, first.len() as int) =~= first);
    assert(all.subrange(first.len() as int, all.len() as int) =~= rest);
    assert(orders(Seq::<LogicalTree>::empty()) =~= Seq::<usize>::empty());
    let single = seq![one];
    assert(single.subrange(0, 0) =~= Seq::<LogicalTree>::empty());
    assert(orders(single) =~= order(one));
    let right = LogicalTree { node, ir, asked, inputs: rest };
    let left = LogicalTree { node, ir, asked, inputs: first };
    let both = LogicalTree { node, ir, asked, inputs: all };
    assert(order(right) =~= seq![node] + orders(rest));
    assert(order(right).subrange(1, order(right).len() as int) =~= orders(rest));
    assert(order(left) =~= seq![node] + orders(first));
    assert(order(both) =~= seq![node] + orders(all));
    assert(order(both) =~= order(left) + orders(rest));
    let alone = LogicalTree { node, ir, asked, inputs: Seq::empty() };
    assert(order(alone) =~= seq![node]);
}

proof fn lemma_no_duplicates(a: Seq<usize>, b: Seq<usize>)
    ensures
        (a + b).no_duplicates() <==> a.no_duplicates() && b.no_duplicates() && forall|n: usize|
            #![trigger a.contains(n), b.contains(n)]
            !(a.contains(n) && b.contains(n)),
{
    let all = a + b;
    if all.no_duplicates() {
        assert forall|i: int, j: int| 0 <= i < a.len() && 0 <= j < a.len() && i != j implies a[i]
            != a[j] by {
            assert(all[i] == a[i] && all[j] == a[j]);
        }
        assert forall|i: int, j: int| 0 <= i < b.len() && 0 <= j < b.len() && i != j implies b[i]
            != b[j] by {
            assert(all[a.len() + i] == b[i] && all[a.len() + j] == b[j]);
        }
        assert forall|n: usize|
            #![trigger a.contains(n), b.contains(n)]
            !(a.contains(n) && b.contains(n)) by {
            if a.contains(n) && b.contains(n) {
                let i = choose|i: int| 0 <= i < a.len() && a[i] == n;
                let j = choose|j: int| 0 <= j < b.len() && b[j] == n;
                assert(all[i] == n && all[a.len() + j] == n);
            }
        }
    } else if a.no_duplicates() && b.no_duplicates() && forall|n: usize|
        #![trigger a.contains(n), b.contains(n)]
        !(a.contains(n) && b.contains(n)) {
        assert forall|i: int, j: int| 0 <= i < all.len() && 0 <= j < all.len() && i
            != j implies all[i] != all[j] by {
            if i < a.len() && j >= a.len() {
                assert(a.contains(all[i]) && b[j - a.len()] == all[j]);
                assert(b.contains(all[j]));
                assert(a.contains(all[j]) ==> !b.contains(all[j]));
            }
            if j < a.len() && i >= a.len() {
                assert(a.contains(all[j]) && b[i - a.len()] == all[i]);
                assert(b.contains(all[i]));
                assert(a.contains(all[i]) ==> !b.contains(all[i]));
            }
            if i >= a.len() && j >= a.len() {
                assert(b[i - a.len()] == all[i] && b[j - a.len()] == all[j]);
            }
        }
    }
}

proof fn lemma_orders_distinct(plans: Seq<LogicalTree>)
    requires
        forall|i: int|
            #![trigger plans[i]]
            0 <= i < plans.len() ==> (order(plans[i]).no_duplicates() <==> distinct(plans[i])),
    ensures
        orders(plans).no_duplicates() <==> (forall|i: int|
            #![trigger plans[i]]
            0 <= i < plans.len() ==> distinct(plans[i])) && (forall|i: int, j: int, node: usize|
            #![trigger has_node(plans[i], node), has_node(plans[j], node)]
            0 <= i < plans.len() && 0 <= j < plans.len() && has_node(plans[i], node) && has_node(
                plans[j],
                node,
            ) ==> i == j),
    decreases plans.len(),
{
    if plans.len() > 0 {
        let last = plans.len() - 1;
        let fewer = plans.subrange(0, last);
        assert forall|i: int| #![trigger fewer[i]] 0 <= i < fewer.len() implies (order(
            fewer[i],
        ).no_duplicates() <==> distinct(fewer[i])) by {
            assert(fewer[i] == plans[i]);
        }
        lemma_orders_distinct(fewer);
        lemma_no_duplicates(orders(fewer), order(plans[last]));
        assert forall|n: usize|
            (#[trigger] orders(fewer).contains(n) <==> exists|i: int|
                #![trigger fewer[i]]
                0 <= i < fewer.len() && has_node(fewer[i], n)) && (order(plans[last]).contains(n)
            <==> has_node(plans[last], n)) by {
            lemma_orders_nodes(fewer, n);
            lemma_order_nodes(plans[last], n);
        }
        if orders(plans).no_duplicates() {
            assert forall|i: int| #![trigger plans[i]] 0 <= i < plans.len() implies distinct(
                plans[i],
            ) by {
                if i < last {
                    assert(fewer[i] == plans[i]);
                }
            }
            assert forall|i: int, j: int, node: usize|
                #![trigger has_node(plans[i], node), has_node(plans[j], node)]
                0 <= i < plans.len() && 0 <= j < plans.len() && has_node(plans[i], node)
                    && has_node(plans[j], node) implies i == j by {
                if i < last {
                    assert(fewer[i] == plans[i]);
                    assert(has_node(fewer[i], node));
                }
                if j < last {
                    assert(fewer[j] == plans[j]);
                    assert(has_node(fewer[j], node));
                }
                lemma_orders_nodes(fewer, node);
                lemma_order_nodes(plans[last], node);
            }
        }
        if (forall|i: int| #![trigger plans[i]] 0 <= i < plans.len() ==> distinct(plans[i])) && (
        forall|i: int, j: int, node: usize|
            #![trigger has_node(plans[i], node), has_node(plans[j], node)]
            0 <= i < plans.len() && 0 <= j < plans.len() && has_node(plans[i], node) && has_node(
                plans[j],
                node,
            ) ==> i == j) {
            assert forall|i: int| #![trigger fewer[i]] 0 <= i < fewer.len() implies distinct(
                fewer[i],
            ) by {
                assert(fewer[i] == plans[i]);
            }
            assert forall|i: int, j: int, node: usize|
                #![trigger has_node(fewer[i], node), has_node(fewer[j], node)]
                0 <= i < fewer.len() && 0 <= j < fewer.len() && has_node(fewer[i], node)
                    && has_node(fewer[j], node) implies i == j by {
                assert(has_node(plans[i], node) && has_node(plans[j], node));
            }
            assert forall|n: usize|
                #![trigger orders(fewer).contains(n), order(plans[last]).contains(n)]
                !(orders(fewer).contains(n) && order(plans[last]).contains(n)) by {
                if orders(fewer).contains(n) && order(plans[last]).contains(n) {
                    let i = choose|i: int|
                        #![trigger fewer[i]]
                        0 <= i < fewer.len() && has_node(fewer[i], n);
                    assert(has_node(plans[i], n) && has_node(plans[last], n));
                }
            }
            assert(distinct(plans[last]));
        }
    }
}

/// A plan has each of its nodes once exactly where no node comes twice in its order.
pub proof fn law_distinct_plans(plan: LogicalTree)
    ensures
        distinct(plan) <==> order(plan).no_duplicates(),
    decreases plan,
{
    assert forall|i: int| #![trigger plan.inputs[i]] 0 <= i < plan.inputs.len() implies (order(
        plan.inputs[i],
    ).no_duplicates() <==> distinct(plan.inputs[i])) by {
        law_distinct_plans(plan.inputs[i]);
    }
    lemma_orders_distinct(plan.inputs);
    let root = seq![plan.node];
    assert(root.no_duplicates());
    lemma_no_duplicates(root, below(plan));
    assert(root[0] == plan.node);
    assert(root.contains(plan.node));
    assert(order(plan) =~= root + below(plan));
    lemma_order_nodes(plan, plan.node);
    assert(below(plan).contains(plan.node) <==> exists|i: int|
        #![trigger plan.inputs[i]]
        0 <= i < plan.inputs.len() && has_node(plan.inputs[i], plan.node));
    assert(order(plan).no_duplicates() <==> below(plan).no_duplicates() && !below(plan).contains(
        plan.node,
    ));
}

/// Inputs are taken one after the other: where a node of one input has been taken out of the
/// arena, so have all nodes of the inputs before it, whether planning is done or fails.
pub proof fn law_inputs_are_taken_in_order(
    result: Result<Executor, PlanError>,
    before: Seq<IR>,
    after: Seq<IR>,
    plan: LogicalTree,
    arena: Arena<AExpr>,
    state: ConversionState,
    i: int,
    j: int,
    m: usize,
    n: usize,
)
    requires
        represents(before, plan),
        distinct(plan),
        may_result(result, before, after, plan, arena, state),
        0 <= i < j < plan.inputs.len(),
        has_node(plan.inputs[i], m),
        has_node(plan.inputs[j], n),
        after[n as int] != before[n as int],
    ensures
        ir_kind(after[m as int]) is Invalid,
{
    let nodes = order(plan);
    match result {
        Ok(_) => {
            lemma_taken_in_order(before, after, plan, nodes.len() as int, i, j, m, n);
        },
        Err(error) => {
            let count = choose|count: int| #[trigger]
                taken(before, after, nodes, count) && fails(error, count, plan, arena, state);
            lemma_taken_in_order(before, after, plan, count, i, j, m, n);
        },
    }
}

proof fn lemma_taken_in_order(
    before: Seq<IR>,
    after: Seq<IR>,
    plan: LogicalTree,
    count: int,
    i: int,
    j: int,
    m: usize,
    n: usize,
)
    requires
        represents(before, plan),
        distinct(plan),
        taken(before, after, order(plan), count),
        0 <= i < j < plan.inputs.len(),
        has_node(plan.inputs[i], m),
        has_node(plan.inputs[j], n),
        after[n as int] != before[n as int],
    ensures
        ir_kind(after[m as int]) is Invalid,
{
    let nodes = order(plan);
    lemma_nodes_in_arena(before, plan.inputs[i], m);
    lemma_nodes_in_arena(before, plan.inputs[j], n);
    assert(nodes.take(count).contains(n));
    let q = choose|q: int| 0 <= q < count && nodes.take(count)[q] == n;
    assert(nodes[q] == n);
    // The nodes up to input `j`, and those from it on.
    let first = plan.inputs.subrange(0, j);
    let rest = plan.inputs.subrange(j, plan.inputs.len() as int);
    lemma_orders_split(plan.inputs, j);
    assert(nodes =~= seq![plan.node] + (orders(first) + orders(rest)));
    lemma_orders_nodes(first, m);
    lemma_orders_nodes(first, n);
    assert(first[i] == plan.inputs[i]);
    assert(orders(first).contains(m));
    let p = choose|p: int| 0 <= p < orders(first).len() && orders(first)[p] == m;
    assert(nodes[p + 1] == m);
    assert(n != plan.node) by {
        assert(has_node(plan.inputs[j], n));
    }
    if q < 1 + orders(first).len() {
        assert(orders(first)[q - 1] == n);
        assert(orders(first).contains(n));
        let k = choose|k: int| #![trigger first[k]] 0 <= k < first.len() && has_node(first[k], n);
        assert(has_node(plan.inputs[k], n) && has_node(plan.inputs[j], n));
    }
    assert(nodes.take(count)[p + 1] == m);
    assert(nodes.take(count).contains(m));
    let _ = after[m as int];
}

/// What planning that fails leaves behind: the error may come after so many nodes, and these,
/// the first ones in the order of the plan, are invalid; every other node is as it was.
pub proof fn law_what_an_error_leaves(
    error: PlanError,
    before: Seq<IR>,
    after: Seq<IR>,
    plan: LogicalTree,
    arena: Arena<AExpr>,
    state: ConversionState,
) -> (count: int)
    requires
        represents(before, plan),
        may_result(Err(error), before, after, plan, arena, state),
    ensures
        fails(error, count, plan, arena, state),
        1 <= count <= order(plan).len(),
        after.len() == before.len(),
        forall|k: int|
            #![trigger order(plan)[k]]
            0 <= k < count ==> ir_kind(after[order(plan)[k] as int]) is Invalid,
        forall|n: usize|
            #![trigger after[n as int]]
            n < before.len() && (forall|k: int|
                #![trigger order(plan)[k]]
                0 <= k < count ==> order(plan)[k] != n) ==> after[n as int] == before[n as int],
{
    let nodes = order(plan);
    let count = choose|count: int| #[trigger]
        taken(before, after, nodes, count) && fails(error, count, plan, arena, state);
    law_failed_planning_stops_at_a_node(before, error, count, plan, arena, state);
    assert forall|k: int| #![trigger order(plan)[k]] 0 <= k < count implies ir_kind(
        after[order(plan)[k] as int],
    ) is Invalid by {
        let n = nodes[k];
        assert(nodes.take(count)[k] == n);
        assert(nodes.take(count).contains(n));
        assert(nodes.contains(n));
        lemma_order_nodes(plan, n);
        lemma_nodes_in_arena(before, plan, n);
    }
    assert forall|n: usize|
        #![trigger after[n as int]]
        n < before.len() && (forall|k: int|
            #![trigger order(plan)[k]]
            0 <= k < count ==> order(plan)[k] != n) implies after[n as int] == before[n as int] by {
        if nodes.take(count).contains(n) {
            let k = choose|k: int| 0 <= k < count && nodes.take(count)[k] == n;
            assert(order(plan)[k] == n);
        }
    }
    count
}

/// Planning in the surroundings that it finds. It fails for the limit of depth only with the
/// arena untouched, and otherwise does what it does in surroundings with the number of threads
/// and the choice of readers that were given, in which the string cache and the rows of a
/// fetch are looked up.
pub proof fn law_planning_in_found_surroundings(
    result: Result<Executor, PlanError>,
    root: Node,
    before: Arena<IR>,
    after: Arena<IR>,
    arena: Arena<AExpr>,
    threads: usize,
    multi_file: bool,
)
    requires
        is_tree(arena_irs(before), node_index(root)),
        may_plan(result, root, before, after, arena, threads, multi_file),
    ensures
        result matches Err(PlanError::DepthLimit { .. }) ==> after == before,
        !(result matches Err(PlanError::DepthLimit { .. })) ==> ir_kind(
            arena_irs(after)[node_index(root) as int],
        ) is Invalid && exists|state: ConversionState| #[trigger]
            may_result(
                result,
                arena_irs(before),
                arena_irs(after),
                root_plan(arena_irs(before), node_index(root)),
                arena,
                state,
            ) && state.threads == threads && state.multi_file == multi_file && state.string_cache
                == Setting::<bool>::LookedUp && state.fetch_rows
                == Setting::<Option<usize>>::LookedUp,
{
    let irs = arena_irs(before);
    let plan = root_plan(irs, node_index(root));
    if exists|state: ConversionState| #[trigger]
        may_result(result, irs, arena_irs(after), plan, arena, state) && state.threads == threads
            && state.multi_file == multi_file && state.string_cache is LookedUp
            && state.fetch_rows is LookedUp {
        let state = choose|state: ConversionState| #[trigger]
            may_result(result, irs, arena_irs(after), plan, arena, state) && state.threads
                == threads && state.multi_file == multi_file && state.string_cache is LookedUp
                && state.fetch_rows is LookedUp;
        law_root_is_taken(result, irs, arena_irs(after), plan, arena, state);
        match result {
            Err(error) => {
                let count = choose|count: int| #[trigger]
                    taken(irs, arena_irs(after), order(plan), count) && fails(
                        error,
                        count,
                        plan,
                        arena,
                        state,
                    );
                law_errors_come_from_the_plan(irs, error, count, plan, arena, state);
            },
            _ => {},
        }
    }
}

} // verus!
