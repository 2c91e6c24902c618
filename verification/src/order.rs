//! The order in which planning takes the nodes of a plan out of its arena.
use crate::logical::{
    distinct, has_node, ir_kind, lemma_nodes_in_arena, lemma_plan_kept, represents, LogicalTree,
};
use polars_plan::prelude::IR;
use vstd::prelude::*;

verus! {

/// The nodes of a plan in the order in which they are taken: a node comes before its inputs,
/// and the inputs come in order.
pub open spec fn order(plan: LogicalTree) -> Seq<usize>
    decreases plan, 1int,
{
    seq![plan.node] + below(plan)
}

/// The nodes of the inputs of a plan in the order in which they are taken.
pub open spec fn below(plan: LogicalTree) -> Seq<usize>
    decreases plan, 0int,
{
    orders(plan.inputs)
}

/// The nodes of plans that are taken one after the other.
pub open spec fn orders(plans: Seq<LogicalTree>) -> Seq<usize>
    decreases plans, 2int,
{
    if plans.len() == 0 {
        Seq::empty()
    } else {
        orders(plans.subrange(0, plans.len() - 1)) + order(plans[plans.len() - 1])
    }
}

/// Whether the first `count` of some nodes have been taken out of the arena, and nothing
/// else.
pub open spec fn taken(before: Seq<IR>, after: Seq<IR>, nodes: Seq<usize>, count: int) -> bool {
    &&& after.len() == before.len()
    &&& 0 <= count <= nodes.len()
    &&& forall|n: usize|
        #![trigger after[n as int]]
        n < before.len() ==> if nodes.take(count).contains(n) {
            ir_kind(after[n as int]) is Invalid
        } else {
            after[n as int] == before[n as int]
        }
}

/// Whether all of some nodes have been taken out of the arena, and nothing else.
pub open spec fn all_taken(before: Seq<IR>, after: Seq<IR>, nodes: Seq<usize>) -> bool {
    taken(before, after, nodes, nodes.len() as int)
}

/// Nodes that are taken after others.
pub(crate) proof fn lemma_taken_on(
    before: Seq<IR>,
    middle: Seq<IR>,
    after: Seq<IR>,
    first: Seq<usize>,
    then: Seq<usize>,
    count: int,
)
    requires
        all_taken(before, middle, first),
        taken(middle, after, then, count),
    ensures
        taken(before, after, first + then, first.len() + count),
{
    let all = first + then;
    let total = first.len() + count;
    assert(first.take(first.len() as int) =~= first);
    assert(all.take(total) =~= first + then.take(count));
    assert forall|n: usize| #![trigger after[n as int]] n < before.len() implies if all.take(
        total,
    ).contains(n) {
        ir_kind(after[n as int]) is Invalid
    } else {
        after[n as int] == before[n as int]
    } by {
        let _ = middle[n as int];
        lemma_contains_either(first, then.take(count), n);
    }
}

/// Nodes that are left where the taking stops.
pub(crate) proof fn lemma_taken_no_more(
    before: Seq<IR>,
    after: Seq<IR>,
    first: Seq<usize>,
    then: Seq<usize>,
    count: int,
)
    requires
        taken(before, after, first, count),
    ensures
        taken(before, after, first + then, count),
{
    assert((first + then).take(count) =~= first.take(count));
}

/// Nothing is taken.
pub(crate) proof fn lemma_taken_none(irs: Seq<IR>, nodes: Seq<usize>)
    ensures
        taken(irs, irs, nodes, 0),
{
}

/// One node is taken.
pub(crate) proof fn lemma_taken_one(before: Seq<IR>, after: Seq<IR>, node: usize)
    requires
        after.len() == before.len(),
        node < before.len(),
        ir_kind(after[node as int]) is Invalid,
        forall|n: int| 0 <= n < before.len() && n != node ==> #[trigger] after[n] == before[n],
    ensures
        all_taken(before, after, seq![node]),
{
    let nodes = seq![node];
    assert(nodes.take(1) =~= nodes);
    assert(nodes[0] == node);
}

proof fn lemma_contains_either(a: Seq<usize>, b: Seq<usize>, n: usize)
    ensures
        (a + b).contains(n) <==> a.contains(n) || b.contains(n),
{
    if a.contains(n) {
        let i = choose|i: int| 0 <= i < a.len() && a[i] == n;
        assert((a + b)[i] == n);
    }
    if b.contains(n) {
        let i = choose|i: int| 0 <= i < b.len() && b[i] == n;
        assert((a + b)[a.len() + i] == n);
    }
    if (a + b).contains(n) {
        let i = choose|i: int| 0 <= i < (a + b).len() && (a + b)[i] == n;
        if i < a.len() {
            assert(a[i] == n);
        } else {
            assert(b[i - a.len()] == n);
        }
    }
}

/// The order of a plan has the nodes of the plan.
pub(crate) proof fn lemma_order_nodes(plan: LogicalTree, n: usize)
    ensures
        order(plan).contains(n) <==> has_node(plan, n),
        below(plan).contains(n) <==> exists|i: int|
            #![trigger plan.inputs[i]]
            0 <= i < plan.inputs.len() && has_node(plan.inputs[i], n),
    decreases plan, 0int,
{
    lemma_orders_nodes(plan.inputs, n);
    lemma_contains_either(seq![plan.node], below(plan), n);
    assert(seq![plan.node].contains(n) <==> n == plan.node) by {
        assert(seq![plan.node][0] == plan.node);
    }
}

/// The order of plans has the nodes of the plans.
pub(crate) proof fn lemma_orders_nodes(plans: Seq<LogicalTree>, n: usize)
    ensures
        orders(plans).contains(n) <==> exists|i: int|
            #![trigger plans[i]]
            0 <= i < plans.len() && has_node(plans[i], n),
    decreases plans, 1int,
{
    if plans.len() > 0 {
        let last = plans.len() - 1;
        let fewer = plans.subrange(0, last);
        lemma_orders_nodes(fewer, n);
        lemma_order_nodes(plans[last], n);
        lemma_contains_either(orders(fewer), order(plans[last]), n);
        if orders(fewer).contains(n) {
            let i = choose|i: int|
                #![trigger fewer[i]]
                0 <= i < fewer.len() && has_node(fewer[i], n);
            assert(has_node(plans[i], n));
        }
        if exists|i: int| #![trigger plans[i]] 0 <= i < plans.len() && has_node(plans[i], n) {
            let i = choose|i: int|
                #![trigger plans[i]]
                0 <= i < plans.len() && has_node(plans[i], n);
            if i < last {
                assert(has_node(fewer[i], n));
            }
        }
    }
}

/// The order of plans is that of the first ones and then that of the others.
pub(crate) proof fn lemma_orders_split(plans: Seq<LogicalTree>, at: int)
    requires
        0 <= at <= plans.len(),
    ensures
        orders(plans) == orders(plans.subrange(0, at)) + orders(
            plans.subrange(at, plans.len() as int),
        ),
    decreases plans.len(),
{
    let len = plans.len() as int;
    let first = plans.subrange(0, at);
    let then = plans.subrange(at, len);
    if at == len {
        assert(first =~= plans);
        assert(orders(then) =~= Seq::<usize>::empty());
    } else {
        let fewer = plans.subrange(0, len - 1);
        lemma_orders_split(fewer, at);
        assert(fewer.subrange(0, at) =~= first);
        assert(fewer.subrange(at, len - 1) =~= then.subrange(0, then.len() - 1));
        assert(then[then.len() - 1] == plans[len - 1]);
    }
}

/// A plan stays where it is while other nodes are taken.
pub(crate) proof fn lemma_plan_untaken(
    before: Seq<IR>,
    after: Seq<IR>,
    nodes: Seq<usize>,
    count: int,
    plan: LogicalTree,
)
    requires
        taken(before, after, nodes, count),
        represents(before, plan),
        forall|n: usize| #[trigger] has_node(plan, n) ==> !nodes.contains(n),
    ensures
        represents(after, plan),
{
    assert forall|n: usize| #[trigger] has_node(plan, n) implies after[n as int]
        == before[n as int] by {
        lemma_nodes_in_arena(before, plan, n);
        if nodes.take(count).contains(n) {
            let i = choose|i: int| 0 <= i < count && nodes.take(count)[i] == n;
            assert(nodes[i] == n);
        }
    }
    lemma_plan_kept(before, after, plan);
}

/// An input of a plan stays where it is while other inputs are taken.
pub(crate) proof fn lemma_input_untaken(
    before: Seq<IR>,
    after: Seq<IR>,
    plan: LogicalTree,
    from: int,
    to: int,
    i: int,
)
    requires
        distinct(plan),
        0 <= from <= to <= plan.inputs.len(),
        0 <= i < plan.inputs.len(),
        i < from || to <= i,
        all_taken(before, after, orders(plan.inputs.subrange(from, to))),
        represents(before, plan.inputs[i]),
    ensures
        represents(after, plan.inputs[i]),
{
    let others = plan.inputs.subrange(from, to);
    let nodes = orders(others);
    assert forall|n: usize| #[trigger] has_node(plan.inputs[i], n) implies !nodes.contains(n) by {
        lemma_orders_nodes(others, n);
        if nodes.contains(n) {
            let j = choose|j: int|
                #![trigger others[j]]
                0 <= j < others.len() && has_node(others[j], n);
            assert(others[j] == plan.inputs[from + j]);
            assert(has_node(plan.inputs[i], n) && has_node(plan.inputs[from + j], n));
        }
    }
    lemma_plan_untaken(before, after, nodes, nodes.len() as int, plan.inputs[i]);
}

/// The order of a single plan.
pub(crate) proof fn lemma_orders_one(plan: LogicalTree)
    ensures
        orders(seq![plan]) == order(plan),
{
    let one = seq![plan];
    assert(orders(one.subrange(0, 0)) =~= Seq::<usize>::empty());
    assert(orders(one) =~= order(plan));
}

/// The nodes below a node with one input, or with none.
pub(crate) proof fn lemma_below_few(plan: LogicalTree)
    ensures
        plan.inputs.len() == 0 ==> below(plan) == Seq::<usize>::empty(),
        plan.inputs.len() == 1 ==> below(plan) == order(plan.inputs[0]),
{
    if plan.inputs.len() == 1 {
        assert(plan.inputs =~= seq![plan.inputs[0]]);
        lemma_orders_one(plan.inputs[0]);
        assert(orders(plan.inputs.subrange(0, 0)) =~= Seq::<usize>::empty());
        assert(below(plan) =~= order(plan.inputs[0]));
    }
}

} // verus!
