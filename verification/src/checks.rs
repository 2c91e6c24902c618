//! What a caller can check of a plan before it is planned.
use crate::expression::{all_shallow, are_shallow, expr_edges, expr_nodes, is_shallow, standing};
use crate::graph::grounded;
use crate::logical::{
    arena_get, arena_irs, arena_len, carries_schema, cross_filter, distinct, halts, has_inputs,
    has_node, inputs_in_order, ir_cross_filter, ir_exprs, ir_inputs, ir_kind, is_plan, is_sink,
    is_tree, lemma_nodes_in_arena, lemma_plan_at, lemma_plan_unique, looked_inputs, looks_through,
    needs_schemas, node_exprs, node_inputs, node_kind, plan_at, represents, root_plan, shape_fits,
    LogicalTree, NodeKind,
};
use crate::physical::{first_exprs, other_exprs, ready};
use crate::state::ConversionState;
use polars_plan::prelude::expr_ir::ExprIR;
use polars_plan::prelude::{AExpr, Arena, IR};
use vstd::prelude::*;

verus! {

/// The number of places that have not been seen.
spec fn unseen(seen: Seq<bool>) -> nat
    decreases seen.len(),
{
    if seen.len() == 0 {
        0
    } else {
        unseen(seen.drop_last()) + if seen.last() {
            0nat
        } else {
            1nat
        }
    }
}

proof fn lemma_fewer_unseen(before: Seq<bool>, after: Seq<bool>, place: int)
    requires
        before.len() == after.len(),
        forall|n: int| 0 <= n < before.len() && before[n] ==> #[trigger] after[n],
    ensures
        unseen(after) <= unseen(before),
        0 <= place < before.len() && !before[place] && after[place] ==> unseen(after) < unseen(
            before,
        ),
    decreases before.len(),
{
    if before.len() > 0 {
        let less = before.drop_last();
        let more = after.drop_last();
        assert forall|n: int| 0 <= n < less.len() && less[n] implies #[trigger] more[n] by {
            assert(after[n]);
        }
        assert(before[before.len() - 1] ==> after[before.len() - 1]);
        lemma_fewer_unseen(less, more, place);
    }
}

/// Whether a plan stands under a place, has each of its nodes once, and has none that has
/// been seen.
spec fn is_fresh(irs: Seq<IR>, node: usize, asked: bool, seen: Seq<bool>) -> bool {
    is_plan(irs, node, asked) && fresh_plan(plan_at(irs, node, asked), seen)
}

/// Whether a plan has each of its nodes once, and none that has been seen.
spec fn fresh_plan(plan: LogicalTree, seen: Seq<bool>) -> bool {
    distinct(plan) && forall|n: usize| #[trigger] has_node(plan, n) ==> !seen[n as int]
}

/// Whether plans stand one after the other under the first inputs of a node, fresh for the
/// places that have been seen before them, and those of their nodes and of no others have
/// been seen since.
spec fn walked(
    irs: Seq<IR>,
    node: usize,
    asked: bool,
    before: Seq<bool>,
    after: Seq<bool>,
    plans: Seq<LogicalTree>,
) -> bool {
    let ir = irs[node as int];
    &&& node < irs.len()
    &&& !(ir_kind(ir) is Invalid)
    &&& shape_fits(ir_kind(ir), ir_inputs(ir).len(), ir_exprs(ir).len())
    &&& before.len() == irs.len()
    &&& after.len() == irs.len()
    &&& !before[node as int]
    &&& plans.len() <= looked_inputs(ir, asked).len()
    &&& forall|i: int|
        #![trigger plans[i]]
        0 <= i < plans.len() ==> plans[i].node == looked_inputs(ir, asked)[i] && plans[i].asked
            == looks_through(ir_kind(ir), asked) && represents(irs, plans[i]) && fresh_plan(
            plans[i],
            before,
        ) && !has_node(plans[i], node)
    &&& forall|i: int, j: int, n: usize|
        #![trigger has_node(plans[i], n), has_node(plans[j], n)]
        0 <= i < plans.len() && 0 <= j < plans.len() && has_node(plans[i], n) && has_node(
            plans[j],
            n,
        ) ==> i == j
    &&& forall|n: usize|
        #![trigger after[n as int]]
        n < irs.len() ==> (after[n as int] <==> before[n as int] || n == node || exists|i: int|
            #![trigger plans[i]]
            0 <= i < plans.len() && has_node(plans[i], n))
}

/// Another input has been walked through.
proof fn lemma_walked_on(
    irs: Seq<IR>,
    node: usize,
    asked: bool,
    before: Seq<bool>,
    now: Seq<bool>,
    after: Seq<bool>,
    plans: Seq<LogicalTree>,
)
    requires
        walked(irs, node, asked, before, now, plans),
        plans.len() < looked_inputs(irs[node as int], asked).len(),
        after.len() == now.len(),
        ({
            let input = looked_inputs(irs[node as int], asked)[plans.len() as int];
            let below = looks_through(ir_kind(irs[node as int]), asked);
            &&& is_fresh(irs, input, below, now)
            &&& forall|n: usize|
                #![trigger after[n as int]]
                n < irs.len() ==> (after[n as int] <==> now[n as int] || has_node(
                    plan_at(irs, input, below),
                    n,
                ))
        }),
    ensures
        ({
            let input = looked_inputs(irs[node as int], asked)[plans.len() as int];
            let below = looks_through(ir_kind(irs[node as int]), asked);
            walked(irs, node, asked, before, after, plans.push(plan_at(irs, input, below)))
        }),
{
    let input = looked_inputs(irs[node as int], asked)[plans.len() as int];
    let below = looks_through(ir_kind(irs[node as int]), asked);
    let next = plan_at(irs, input, below);
    let more = plans.push(next);
    let k = plans.len() as int;
    assert(more[k] == next);
    assert forall|n: usize| #[trigger] has_node(next, n) implies !before[n as int] && n != node
        && forall|i: int|
        #![trigger plans[i]]
        0 <= i < k ==> !has_node(plans[i], n) by {
        lemma_nodes_in_arena(irs, next, n);
        assert(!now[n as int]);
    }
    assert forall|i: int| #![trigger more[i]] 0 <= i < more.len() implies more[i].node
        == looked_inputs(irs[node as int], asked)[i] && more[i].asked == below && represents(
        irs,
        more[i],
    ) && fresh_plan(more[i], before) && !has_node(more[i], node) by {
        if i < k {
            assert(more[i] == plans[i]);
        }
    }
    assert forall|i: int, j: int, n: usize|
        #![trigger has_node(more[i], n), has_node(more[j], n)]
        0 <= i < more.len() && 0 <= j < more.len() && has_node(more[i], n) && has_node(
            more[j],
            n,
        ) implies i == j by {
        if i < k {
            assert(more[i] == plans[i]);
        }
        if j < k {
            assert(more[j] == plans[j]);
        }
    }
    assert forall|n: usize| #![trigger after[n as int]] n < irs.len() implies (after[n as int]
        <==> before[n as int] || n == node || exists|i: int|
        #![trigger more[i]]
        0 <= i < more.len() && has_node(more[i], n)) by {
        let _ = now[n as int];
        if exists|i: int| #![trigger plans[i]] 0 <= i < plans.len() && has_node(plans[i], n) {
            let i = choose|i: int|
                #![trigger plans[i]]
                0 <= i < plans.len() && has_node(plans[i], n);
            assert(has_node(more[i], n));
        }
        if has_node(next, n) {
            assert(has_node(more[k], n));
        }
        if exists|i: int| #![trigger more[i]] 0 <= i < more.len() && has_node(more[i], n) {
            let i = choose|i: int| #![trigger more[i]] 0 <= i < more.len() && has_node(more[i], n);
            if i < k {
                assert(has_node(plans[i], n));
            }
        }
    }
}

/// All inputs that belong to a plan have been walked through.
proof fn lemma_walked_all(
    irs: Seq<IR>,
    node: usize,
    asked: bool,
    before: Seq<bool>,
    after: Seq<bool>,
    plans: Seq<LogicalTree>,
)
    requires
        walked(irs, node, asked, before, after, plans),
        has_inputs((LogicalTree { node, ir: irs[node as int], asked, inputs: plans })),
    ensures
        is_fresh(irs, node, asked, before),
        plan_at(irs, node, asked) == (LogicalTree {
            node,
            ir: irs[node as int],
            asked,
            inputs: plans,
        }),
        forall|n: usize|
            #![trigger after[n as int]]
            n < irs.len() ==> (after[n as int] <==> before[n as int] || has_node(
                plan_at(irs, node, asked),
                n,
            )),
{
    let plan = LogicalTree { node, ir: irs[node as int], asked, inputs: plans };
    assert forall|i: int| #![trigger plan.inputs[i]] 0 <= i < plan.inputs.len() implies
        plan.inputs[i].node == looked_inputs(plan.ir, asked)[i] && plan.inputs[i].asked
        == looks_through(ir_kind(plan.ir), asked) && represents(irs, plan.inputs[i]) && distinct(
        plan.inputs[i],
    ) && !has_node(plan.inputs[i], node) by {
        assert(plan.inputs[i] == plans[i]);
    }
    assert(represents(irs, plan));
    lemma_plan_at(irs, plan);
    assert forall|n: usize| #[trigger] has_node(plan, n) implies !before[n as int] by {
        if n != node {
            let i = choose|i: int|
                #![trigger plan.inputs[i]]
                0 <= i < plan.inputs.len() && has_node(plan.inputs[i], n);
            assert(fresh_plan(plans[i], before));
        }
    }
}

/// Where no fresh plan stands under the next input of a node, none stands under the node.
proof fn lemma_walk_broken(
    irs: Seq<IR>,
    node: usize,
    asked: bool,
    before: Seq<bool>,
    now: Seq<bool>,
    plans: Seq<LogicalTree>,
)
    requires
        walked(irs, node, asked, before, now, plans),
        plans.len() < looked_inputs(irs[node as int], asked).len(),
        !looks_through(ir_kind(irs[node as int]), asked) ==> forall|i: int|
            #![trigger plans[i]]
            0 <= i < plans.len() ==> !halts(plans[i]),
        !is_fresh(
            irs,
            looked_inputs(irs[node as int], asked)[plans.len() as int],
            looks_through(ir_kind(irs[node as int]), asked),
            now,
        ),
    ensures
        !is_fresh(irs, node, asked, before),
{
    if is_fresh(irs, node, asked, before) {
        let plan = plan_at(irs, node, asked);
        let k = plans.len() as int;
        let below = looks_through(ir_kind(plan.ir), asked);
        assert forall|i: int| 0 <= i < k && i < plan.inputs.len() implies plan.inputs[i]
            == plans[i] by {
            assert(plan.inputs[i].node == plans[i].node);
            lemma_plan_unique(irs, plan.inputs[i], plans[i]);
        }
        if plan.inputs.len() <= k {
            let last = plan.inputs.len() - 1;
            assert(plan.inputs[last] == plans[last]);
        }
        let next = plan.inputs[k];
        assert(next.node == looked_inputs(plan.ir, asked)[k] && next.asked == below);
        lemma_plan_at(irs, next);
        assert forall|n: usize| #[trigger] has_node(next, n) implies !now[n as int] by {
            lemma_nodes_in_arena(irs, next, n);
            assert(has_node(plan, n));
            if exists|i: int| #![trigger plans[i]] 0 <= i < plans.len() && has_node(plans[i], n) {
                let i = choose|i: int|
                    #![trigger plans[i]]
                    0 <= i < plans.len() && has_node(plans[i], n);
                assert(has_node(plan.inputs[i], n) && has_node(plan.inputs[k], n));
            }
        }
        assert(distinct(next));
    }
}

/// What a walk through a plan finds.
enum Walk {
    /// Under the place stands no plan that has each of its nodes once, or the plan has a
    /// node that has been seen.
    Broken,
    /// A plan at which planning stops.
    Halts,
    /// A plan at which planning does not stop.
    Passes,
}

/// Walks through the plan under a place, and adds its nodes to those that have been seen.
fn walk(arena: &Arena<IR>, node: usize, asked: bool, seen: &mut Vec<bool>) -> (r: Walk)
    requires
        old(seen)@.len() == arena_irs(*arena).len(),
    ensures
        final(seen)@.len() == old(seen)@.len(),
        r is Broken <==> !is_fresh(arena_irs(*arena), node, asked, old(seen)@),
        !(r is Broken) ==> (r is Halts <==> halts(plan_at(arena_irs(*arena), node, asked)))
            && forall|n: usize|
            #![trigger final(seen)@[n as int]]
            n < old(seen)@.len() ==> (final(seen)@[n as int] <==> old(seen)@[n as int] || has_node(
                plan_at(arena_irs(*arena), node, asked),
                n,
            )),
    decreases unseen(old(seen)@),
{
    let ghost irs = arena_irs(*arena);
    let ghost before = seen@;
    if node >= seen.len() || seen[node] {
        assert(is_plan(irs, node, asked) ==> has_node(plan_at(irs, node, asked), node));
        return Walk::Broken;
    }
    let ir = arena_get(arena, node);
    let kind = node_kind(ir);
    if let NodeKind::Invalid = kind {
        return Walk::Broken;
    }
    let inputs = inputs_looked_at(ir, asked);
    let below = asked || asks_for_schemas(ir);
    let sink = matches!(kind, NodeKind::MemorySink | NodeKind::FileSink);
    seen.set(node, true);
    let ghost mut plans = Seq::<LogicalTree>::empty();
    let mut halting = sink;
    let mut k: usize = 0;
    while k < inputs.len()
        invariant
            k <= inputs@.len(),
            irs == arena_irs(*arena),
            before == old(seen)@,
            node < irs.len() <= usize::MAX,
            *ir == irs[node as int],
            inputs@ == looked_inputs(*ir, asked),
            below == looks_through(ir_kind(*ir), asked),
            sink == is_sink(ir_kind(*ir)),
            walked(irs, node, asked, before, seen@, plans),
            plans.len() == k,
            halting <==> sink || exists|i: int|
                #![trigger plans[i]]
                0 <= i < plans.len() && halts(plans[i]),
            !below ==> forall|i: int| #![trigger plans[i]] 0 <= i < plans.len() ==> !halts(plans[i]),
        decreases inputs@.len() - k,
    {
        let ghost now = seen@;
        proof {
            assert forall|n: int| 0 <= n < before.len() && before[n] implies #[trigger] now[n] by {
                let place = n as usize;
                assert(now[place as int]);
            }
            lemma_fewer_unseen(before, now, node as int);
        }
        let found = walk(arena, inputs[k], below, seen);
        if let Walk::Broken = found {
            proof {
                lemma_walk_broken(irs, node, asked, before, now, plans);
            }
            return Walk::Broken;
        }
        let ghost next = plan_at(irs, inputs@[k as int], below);
        proof {
            lemma_walked_on(irs, node, asked, before, now, seen@, plans);
            let more = plans.push(next);
            assert(more[k as int] == next);
            assert forall|i: int| 0 <= i < k implies more[i] == plans[i] by {}
            if exists|i: int| #![trigger plans[i]] 0 <= i < plans.len() && halts(plans[i]) {
                let i = choose|i: int|
                    #![trigger plans[i]]
                    0 <= i < plans.len() && halts(plans[i]);
                assert(halts(more[i]));
            }
            plans = more;
        }
        if let Walk::Halts = found {
            halting = true;
            assert(halts(plans[k as int]));
            if !below {
                proof {
                    lemma_walked_all(irs, node, asked, before, seen@, plans);
                }
                return Walk::Halts;
            }
        }
        k += 1;
    }
    proof {
        lemma_walked_all(irs, node, asked, before, seen@, plans);
    }
    if halting {
        Walk::Halts
    } else {
        Walk::Passes
    }
}

/// Whether the plan under a place has each of its nodes once.
pub fn plan_is_tree(arena: &Arena<IR>, root: usize) -> (r: bool)
    ensures
        r == is_tree(arena_irs(*arena), root),
{
    let ghost irs = arena_irs(*arena);
    let len: usize = arena_len(arena);
    let mut seen: Vec<bool> = Vec::new();
    let mut i: usize = 0;
    while i < len
        invariant
            i <= len,
            seen@.len() == i,
            forall|n: int| 0 <= n < i ==> !#[trigger] seen@[n],
        decreases len - i,
    {
        seen.push(false);
        i += 1;
    }
    proof {
        if is_plan(irs, root, false) {
            assert forall|n: usize| #[trigger] has_node(
                plan_at(irs, root, false),
                n,
            ) implies !seen@[n as int] by {
                lemma_nodes_in_arena(irs, plan_at(irs, root, false), n);
            }
        }
    }
    !matches!(walk(arena, root, false, &mut seen), Walk::Broken)
}

/// The inputs of a node that are looked at, unless planning stops before.
fn inputs_looked_at(ir: &IR, asked: bool) -> (r: Vec<usize>)
    requires
        !(ir_kind(*ir) is Invalid),
    ensures
        r@ == looked_inputs(*ir, asked),
        shape_fits(ir_kind(*ir), ir_inputs(*ir).len(), ir_exprs(*ir).len()),
{
    let inputs = inputs_in_order(ir);
    if !asked {
        match node_kind(ir) {
            NodeKind::MemorySink | NodeKind::FileSink => {
                let none: Vec<usize> = Vec::new();
                assert(none@ =~= Seq::<usize>::empty());
                return none;
            },
            _ => {},
        }
    }
    inputs
}

/// Whether planning stops at a sink of a plan.
fn finds_halt(
    arena: &Arena<IR>,
    node: usize,
    asked: bool,
    Ghost(plan): Ghost<LogicalTree>,
) -> (r: bool)
    requires
        represents(arena_irs(*arena), plan),
        plan.node == node,
        plan.asked == asked,
    ensures
        r == halts(plan),
    decreases plan,
{
    let ir = arena_get(arena, node);
    if let NodeKind::MemorySink | NodeKind::FileSink = node_kind(ir) {
        return true;
    }
    let inputs = inputs_looked_at(ir, asked);
    let below = asked || asks_for_schemas(ir);
    let mut k: usize = 0;
    while k < inputs.len()
        invariant
            k <= plan.inputs.len() <= inputs@.len(),
            represents(arena_irs(*arena), plan),
            !is_sink(ir_kind(plan.ir)),
            inputs@ == looked_inputs(plan.ir, plan.asked),
            below == looks_through(ir_kind(plan.ir), plan.asked),
            forall|i: int| #![trigger plan.inputs[i]] 0 <= i < k ==> !halts(plan.inputs[i]),
        decreases inputs@.len() - k,
    {
        proof {
            if k == plan.inputs.len() {
                assert(!halts(plan.inputs[k - 1]));
            }
        }
        if finds_halt(arena, inputs[k], below, Ghost(plan.inputs[k as int])) {
            assert(halts(plan.inputs[k as int]));
            return true;
        }
        k += 1;
    }
    false
}

/// The inputs of a node that belong to its plan.
fn inputs_of_plan(
    arena: &Arena<IR>,
    node: usize,
    asked: bool,
    Ghost(plan): Ghost<LogicalTree>,
) -> (r: Vec<usize>)
    requires
        represents(arena_irs(*arena), plan),
        plan.node == node,
        plan.asked == asked,
    ensures
        r@ == looked_inputs(plan.ir, plan.asked).take(plan.inputs.len() as int),
{
    let ir = arena_get(arena, node);
    let mut inputs = inputs_looked_at(ir, asked);
    if asked || asks_for_schemas(ir) {
        assert(inputs@ =~= inputs@.take(plan.inputs.len() as int));
        return inputs;
    }
    let ghost all = inputs@;
    let mut k: usize = 0;
    while k < inputs.len()
        invariant
            inputs@ == all,
            all == looked_inputs(plan.ir, plan.asked),
            k <= plan.inputs.len() <= all.len(),
            represents(arena_irs(*arena), plan),
            !looks_through(ir_kind(plan.ir), plan.asked),
            forall|i: int| #![trigger plan.inputs[i]] 0 <= i < k ==> !halts(plan.inputs[i]),
        decreases all.len() - k,
    {
        proof {
            if k == plan.inputs.len() {
                assert(!halts(plan.inputs[k - 1]));
            }
        }
        if finds_halt(arena, inputs[k], false, Ghost(plan.inputs[k as int])) {
            assert(halts(plan.inputs[k as int]));
            inputs.truncate(k + 1);
            assert(inputs@ =~= all.take(plan.inputs.len() as int));
            return inputs;
        }
        k += 1;
    }
    assert(inputs@ =~= all.take(plan.inputs.len() as int));
    inputs
}

/// Whether planning of a node asks for the schemas of its inputs.
fn asks_for_schemas(ir: &IR) -> (r: bool)
    ensures
        r == needs_schemas(ir_kind(*ir)),
{
    matches!(
        node_kind(ir),
        NodeKind::Filter
            | NodeKind::Select { .. }
            | NodeKind::HStack { .. }
            | NodeKind::Sort
            | NodeKind::GroupBy { .. }
            | NodeKind::Join { .. }
    )
}

/// Whether planning can go ahead without a look into any function: the expressions of the
/// plan stand in the arena, call no function and have fewer nodes than `depth`, where that
/// is not zero, and the schemas that are needed are written in the plan.
pub open spec fn vouched(plan: LogicalTree, arena: Arena<AExpr>, depth: u16) -> bool
    decreases plan,
{
    is_sink(ir_kind(plan.ir)) || {
        &&& all_shallow(ir_exprs(plan.ir), arena, depth)
        &&& ir_kind(plan.ir) is Join ==> (ir_cross_filter(plan.ir) matches Some((predicate, _))
            ==> is_shallow(predicate, arena, depth))
        &&& forall|i: int|
            #![trigger plan.inputs[i]]
            0 <= i < plan.inputs.len() ==> vouched(plan.inputs[i], arena, depth) && (needs_schemas(
                ir_kind(plan.ir),
            ) ==> carries_schema(plan.inputs[i]))
    }
}

/// Polars comes back from what planning asks of it, where the plan is vouched for.
pub proof fn law_vouched_plans_are_ready(
    irs: Seq<IR>,
    plan: LogicalTree,
    arena: Arena<AExpr>,
    state: ConversionState,
)
    requires
        represents(irs, plan),
        vouched(plan, arena, state.expr_depth),
    ensures
        ready(plan, arena, state),
    decreases plan,
{
    if !is_sink(ir_kind(plan.ir)) {
        let exprs = ir_exprs(plan.ir);
        assert forall|i: int| #![trigger plan.inputs[i]] 0 <= i < plan.inputs.len() implies ready(
            plan.inputs[i],
            arena,
            state,
        ) by {
            law_vouched_plans_are_ready(irs, plan.inputs[i], arena, state);
        }
        assert forall|i: int| #![trigger first_exprs(plan.ir)[i]] 0 <= i < first_exprs(
            plan.ir,
        ).len() implies is_shallow(first_exprs(plan.ir)[i], arena, state.expr_depth) by {
            assert(first_exprs(plan.ir)[i] == exprs[i]);
        }
        assert forall|i: int| #![trigger other_exprs(plan.ir)[i]] 0 <= i < other_exprs(
            plan.ir,
        ).len() implies is_shallow(other_exprs(plan.ir)[i], arena, state.expr_depth) by {
            assert(other_exprs(plan.ir)[i] == exprs[exprs.len() - other_exprs(plan.ir).len() + i]);
        }
        if needs_schemas(ir_kind(plan.ir)) {
            assert(carries_schema(plan.inputs[0]));
            if ir_kind(plan.ir) is Join {
                assert(carries_schema(plan.inputs[1]));
            }
        }
        if ir_kind(plan.ir) is Filter {
            assert(is_shallow(exprs[0], arena, state.expr_depth));
        }
        if ir_kind(plan.ir) is Scan && exprs.len() > 0 {
            assert(is_shallow(exprs[0], arena, state.expr_depth));
        }
    }
}

/// Whether the schema of a plan's rows is written in the plan.
fn finds_written_schema(
    arena: &Arena<IR>,
    node: usize,
    Ghost(plan): Ghost<LogicalTree>,
) -> (r: bool)
    requires
        represents(arena_irs(*arena), plan),
        plan.node == node,
        plan.asked,
    ensures
        r == carries_schema(plan),
    decreases plan,
{
    let ir = arena_get(arena, node);
    match node_kind(ir) {
        NodeKind::Union { .. }
        | NodeKind::Cache { .. }
        | NodeKind::Sort
        | NodeKind::Filter
        | NodeKind::Distinct
        | NodeKind::MemorySink
        | NodeKind::FileSink
        | NodeKind::Slice { .. } => {
            let inputs = node_inputs(ir);
            inputs.len() > 0 && finds_written_schema(arena, inputs[0], Ghost(plan.inputs[0]))
        },
        NodeKind::MapFunction | NodeKind::Invalid => false,
        _ => true,
    }
}

/// Whether planning can go ahead without a look into any function, where `marks` says under
/// which places of the expression arena an expression stands.
fn vouches(
    lp_arena: &Arena<IR>,
    node: usize,
    asked: bool,
    expr_arena: &Arena<AExpr>,
    depth: u16,
    marks: &Vec<bool>,
    Ghost(plan): Ghost<LogicalTree>,
) -> (r: bool)
    requires
        represents(arena_irs(*lp_arena), plan),
        plan.node == node,
        plan.asked == asked,
        marks@.len() == expr_nodes(*expr_arena).len(),
        forall|n: int|
            0 <= n < marks@.len() ==> #[trigger] marks@[n] == grounded(
                expr_edges(*expr_arena),
                n as usize,
            ),
    ensures
        r == vouched(plan, *expr_arena, depth),
    decreases plan,
{
    let ir = arena_get(lp_arena, node);
    match node_kind(ir) {
        NodeKind::MemorySink | NodeKind::FileSink => {
            return true;
        },
        NodeKind::Join { .. } => {
            if let Some((predicate, _)) = cross_filter(ir) {
                let mut filter: Vec<ExprIR> = Vec::new();
                filter.push(predicate);
                let shallow = are_shallow(&filter, expr_arena, depth, marks);
                assert(filter@[0] == predicate);
                if !shallow {
                    return false;
                }
            }
        },
        _ => {},
    }
    let exprs = node_exprs(ir);
    if !are_shallow(&exprs, expr_arena, depth, marks) {
        return false;
    }
    let asks = asks_for_schemas(ir);
    let below = asked || asks;
    let inputs = inputs_of_plan(lp_arena, node, asked, Ghost(plan));
    let mut k: usize = 0;
    while k < inputs.len()
        invariant
            k <= inputs@.len(),
            represents(arena_irs(*lp_arena), plan),
            inputs@ == looked_inputs(plan.ir, plan.asked).take(plan.inputs.len() as int),
            plan.inputs.len() <= looked_inputs(plan.ir, plan.asked).len(),
            marks@.len() == expr_nodes(*expr_arena).len(),
            forall|n: int|
                0 <= n < marks@.len() ==> #[trigger] marks@[n] == grounded(
                    expr_edges(*expr_arena),
                    n as usize,
                ),
            !is_sink(ir_kind(plan.ir)),
            asks == needs_schemas(ir_kind(plan.ir)),
            below == looks_through(ir_kind(plan.ir), plan.asked),
            forall|i: int|
                #![trigger plan.inputs[i]]
                0 <= i < k ==> vouched(plan.inputs[i], *expr_arena, depth) && (asks
                    ==> carries_schema(plan.inputs[i])),
        decreases inputs@.len() - k,
    {
        let ghost sub = plan.inputs[k as int];
        if !vouches(lp_arena, inputs[k], below, expr_arena, depth, marks, Ghost(sub)) {
            return false;
        }
        if asks && !finds_written_schema(lp_arena, inputs[k], Ghost(sub)) {
            return false;
        }
        k += 1;
    }
    true
}

/// Whether a plan is a tree, and planning it can go ahead without a look into any function.
pub fn plan_is_vouched(
    lp_arena: &Arena<IR>,
    root: usize,
    expr_arena: &Arena<AExpr>,
    depth: u16,
) -> (r: bool)
    ensures
        r <==> is_tree(arena_irs(*lp_arena), root) && vouched(
            root_plan(arena_irs(*lp_arena), root),
            *expr_arena,
            depth,
        ),
{
    if !plan_is_tree(lp_arena, root) {
        return false;
    }
    let marks = standing(expr_arena);
    let ghost plan = root_plan(arena_irs(*lp_arena), root);
    vouches(lp_arena, root, false, expr_arena, depth, &marks, Ghost(plan))
}

/// Whether a node of this kind uses as many threads as are free.
pub open spec fn spreads(kind: NodeKind) -> bool {
    kind is Select || kind is HStack
}

/// Whether planning a plan asks for the number of threads.
pub open spec fn asks_for_threads(plan: LogicalTree) -> bool
    decreases plan,
{
    !is_sink(ir_kind(plan.ir)) && (spreads(ir_kind(plan.ir)) || exists|i: int|
        #![trigger plan.inputs[i]]
        0 <= i < plan.inputs.len() && asks_for_threads(plan.inputs[i]))
}

fn finds_spread(
    arena: &Arena<IR>,
    node: usize,
    asked: bool,
    Ghost(plan): Ghost<LogicalTree>,
) -> (r: bool)
    requires
        represents(arena_irs(*arena), plan),
        plan.node == node,
        plan.asked == asked,
    ensures
        r == asks_for_threads(plan),
    decreases plan,
{
    let ir = arena_get(arena, node);
    match node_kind(ir) {
        NodeKind::MemorySink | NodeKind::FileSink => {
            return false;
        },
        NodeKind::Select { .. } | NodeKind::HStack { .. } => {
            return true;
        },
        _ => {},
    }
    let below = asked || asks_for_schemas(ir);
    let inputs = inputs_of_plan(arena, node, asked, Ghost(plan));
    let mut k: usize = 0;
    while k < inputs.len()
        invariant
            k <= inputs@.len(),
            represents(arena_irs(*arena), plan),
            inputs@ == looked_inputs(plan.ir, plan.asked).take(plan.inputs.len() as int),
            plan.inputs.len() <= looked_inputs(plan.ir, plan.asked).len(),
            !is_sink(ir_kind(plan.ir)),
            !spreads(ir_kind(plan.ir)),
            below == looks_through(ir_kind(plan.ir), plan.asked),
            forall|i: int|
                #![trigger plan.inputs[i]]
                0 <= i < k ==> !asks_for_threads(plan.inputs[i]),
        decreases inputs@.len() - k,
    {
        let ghost sub = plan.inputs[k as int];
        if finds_spread(arena, inputs[k], below, Ghost(sub)) {
            assert(asks_for_threads(plan.inputs[k as int]));
            return true;
        }
        k += 1;
    }
    false
}

/// Whether planning the plan under a place asks for the number of threads.
pub fn plan_asks_for_threads(arena: &Arena<IR>, root: usize) -> (r: bool)
    requires
        is_tree(arena_irs(*arena), root),
    ensures
        r == asks_for_threads(root_plan(arena_irs(*arena), root)),
{
    finds_spread(arena, root, false, Ghost(root_plan(arena_irs(*arena), root)))
}

} // verus!
