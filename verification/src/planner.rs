//! Planning: turns a logical plan into a physical plan.
use crate::checks::{law_vouched_plans_are_ready, plan_is_vouched, vouched};
use crate::decisions::{filter_is_streamable, scan_reader, scan_slice};
use crate::expression::{
    all_stand, are_elementwise, are_literal, can_pre_aggregate, compile_all, compile_as,
    compile_one, count_nodes, expr_nodes, expr_shape, has_literal_series, holds_literal_series,
    is_elementwise, pre_aggregates, schema_has_categoricals, stands, to_exprs, ExprContext,
};
use crate::graph::size;
use crate::logical::{
    arena_irs, arena_take, cross_filter, distinct, halts, has_inputs, has_node, index_of,
    inputs_in_order, ir_exprs, ir_inputs, ir_kind, is_sink, is_tree, lemma_nodes_in_arena,
    lemma_plan_at, lemma_plan_kept, looked_inputs, looks_through, node_exprs, node_index,
    node_inputs, node_kind, node_schema, represents, root_plan, scan_projection, scan_schema,
    shape_fits, sink_file_type, LogicalTree, NodeKind, ScanFormat,
};
use crate::order::{
    all_taken, below, lemma_below_few, lemma_input_untaken, lemma_orders_split,
    lemma_taken_no_more, lemma_taken_none, lemma_taken_on, lemma_taken_one, order, orders, taken,
};
use crate::physical::{
    cross_filter_fits, fails, first_exprs, inputs_fail, keys_are_simple, may_group, may_partition,
    other_exprs, plannable, plans, ready, Executor, Grouping,
};
use crate::planner_laws::law_sinks_are_refused;
use crate::sources::{finds_partitioned, shares_source};
use crate::state::{ConversionState, PlanError};
use polars_core::prelude::DataType;
use polars_plan::prelude::expr_ir::ExprIR;
use polars_plan::prelude::{AExpr, Arena, Node, IR};
use polars_schema::Schema;
use std::sync::Arc;
use vstd::pervasive::unreached;
use vstd::prelude::*;

verus! {

/// Whether a group-by can work on partitions of its rows.
///
/// It cannot with more than two keys, whose combinations are likely too many, nor with
/// keys that are more than a single column, nor with a function of the user's.
pub fn partitionable_gb(
    keys: &Vec<ExprIR>,
    aggs: &Vec<ExprIR>,
    input_schema: &Arc<Schema<DataType>>,
    expr_arena: &Arena<AExpr>,
    has_apply: bool,
) -> (r: bool)
    requires
        0 < keys@.len() < 3 && !has_apply ==> all_stand(keys@, *expr_arena),
        keys_are_simple(keys@, *expr_arena, has_apply) ==> pre_aggregates(
            aggs@,
            *expr_arena,
            *input_schema,
        ),
    ensures
        may_partition(keys@, aggs@, *input_schema, *expr_arena, has_apply, r),
{
    if keys.len() == 0 || keys.len() >= 3 || has_apply {
        return false;
    }
    let mut i: usize = 0;
    while i < keys.len()
        invariant
            i <= keys@.len(),
            all_stand(keys@, *expr_arena),
            forall|j: int|
                #![trigger keys@[j]]
                0 <= j < i ==> size(expr_shape(keys@[j], *expr_arena)) <= 1
                    && !has_literal_series(
                    expr_nodes(*expr_arena),
                    expr_shape(keys@[j], *expr_arena),
                ),
        decreases keys@.len() - i,
    {
        let key = &keys[i];
        assert(stands(keys@[i as int], *expr_arena));
        if count_nodes(key, expr_arena, 2) > 1 || holds_literal_series(key, expr_arena) {
            assert(!keys_are_simple(keys@, *expr_arena, has_apply));
            return false;
        }
        i += 1;
    }
    assert(keys_are_simple(keys@, *expr_arena, has_apply));
    can_pre_aggregate(aggs, expr_arena, input_schema)
}

/// Whether the inputs of a plan stand in the arena.
spec fn inputs_stand(irs: Seq<IR>, plan: LogicalTree) -> bool {
    forall|i: int|
        #![trigger plan.inputs[i]]
        0 <= i < plan.inputs.len() ==> represents(irs, plan.inputs[i])
}

/// Whether a node has been taken out of the arena and its inputs stand there still.
spec fn opened(irs: Seq<IR>, ir: IR, plan: LogicalTree) -> bool {
    &&& ir == plan.ir
    &&& !(ir_kind(ir) is Invalid)
    &&& has_inputs(plan)
    &&& shape_fits(ir_kind(ir), ir_inputs(ir).len(), ir_exprs(ir).len())
    &&& forall|i: int|
        #![trigger plan.inputs[i]]
        0 <= i < plan.inputs.len() ==> plan.inputs[i].node == looked_inputs(ir, plan.asked)[i]
            && plan.inputs[i].asked == looks_through(ir_kind(ir), plan.asked)
    &&& inputs_stand(irs, plan)
    &&& distinct(plan)
}

/// Whether planning may have this result and leave the arena so.
///
/// With an executor, all nodes of the plan have been taken out of the arena; with an error,
/// those up to where planning stopped.
pub open spec fn may_result(
    result: Result<Executor, PlanError>,
    before: Seq<IR>,
    after: Seq<IR>,
    plan: LogicalTree,
    arena: Arena<AExpr>,
    state: ConversionState,
) -> bool {
    match result {
        Ok(executor) => plans(executor, plan, arena, state) && all_taken(before, after, order(plan)),
        Err(error) => exists|count: int| #[trigger]
            taken(before, after, order(plan), count) && fails(error, count, plan, arena, state),
    }
}

/// What [`may_result`] says, after the root of the plan has been taken.
spec fn may_go_on(
    result: Result<Executor, PlanError>,
    open: Seq<IR>,
    after: Seq<IR>,
    plan: LogicalTree,
    arena: Arena<AExpr>,
    state: ConversionState,
) -> bool {
    match result {
        Ok(executor) => plans(executor, plan, arena, state) && all_taken(open, after, below(plan)),
        Err(error) => exists|count: int| #[trigger]
            taken(open, after, below(plan), count) && fails(error, count + 1, plan, arena, state),
    }
}

/// Whether the inputs of a plan may fail so and leave the arena so.
spec fn may_stop(
    error: PlanError,
    open: Seq<IR>,
    after: Seq<IR>,
    plan: LogicalTree,
    arena: Arena<AExpr>,
    state: ConversionState,
) -> bool {
    exists|count: int| #[trigger]
        taken(open, after, below(plan), count) && inputs_fail(error, count, plan, arena, state)
}

/// Plans the inputs of a node in order, up to the first one that fails.
fn plan_inputs(
    nodes: &Vec<usize>,
    lp_arena: &mut Arena<IR>,
    expr_arena: &Arena<AExpr>,
    state: &ConversionState,
    Ghost(plan): Ghost<LogicalTree>,
) -> (r: Result<Vec<Executor>, PlanError>)
    requires
        opened(arena_irs(*old(lp_arena)), plan.ir, plan),
        nodes@ == looked_inputs(plan.ir, plan.asked),
        ready(plan, *expr_arena, *state),
        !is_sink(ir_kind(plan.ir)),
    ensures
        r matches Ok(executors) ==> {
            &&& executors@.len() == plan.inputs.len()
            &&& plan.inputs.len() == nodes@.len()
            &&& forall|i: int|
                #![trigger plan.inputs[i]]
                0 <= i < plan.inputs.len() ==> plans(
                    executors@[i],
                    plan.inputs[i],
                    *expr_arena,
                    *state,
                )
            &&& all_taken(
                arena_irs(*old(lp_arena)),
                arena_irs(*final(lp_arena)),
                below(plan),
            )
        },
        r matches Err(error) ==> may_stop(
            error,
            arena_irs(*old(lp_arena)),
            arena_irs(*final(lp_arena)),
            plan,
            *expr_arena,
            *state,
        ),
    decreases plan, 0int,
{
    let ghost before = arena_irs(*lp_arena);
    let mut out: Vec<Executor> = Vec::new();
    let mut k: usize = 0;
    proof {
        lemma_taken_none(before, orders(plan.inputs.subrange(0, 0)));
    }
    while k < nodes.len()
        invariant
            k <= plan.inputs.len() <= nodes@.len(),
            opened(before, plan.ir, plan),
            nodes@ == looked_inputs(plan.ir, plan.asked),
            ready(plan, *expr_arena, *state),
            !is_sink(ir_kind(plan.ir)),
            before == arena_irs(*old(lp_arena)),
            out@.len() == k,
            forall|i: int|
                #![trigger plan.inputs[i]]
                0 <= i < k ==> plans(out@[i], plan.inputs[i], *expr_arena, *state) && !halts(
                    plan.inputs[i],
                ),
            all_taken(before, arena_irs(*lp_arena), orders(plan.inputs.subrange(0, k as int))),
        decreases nodes@.len() - k,
    {
        let ghost now = arena_irs(*lp_arena);
        proof {
            // The plan ends only where planning has stopped.
            if k == plan.inputs.len() {
                assert(!halts(plan.inputs[k - 1]));
            }
        }
        let ghost sub = plan.inputs[k as int];
        let ghost first = plan.inputs.subrange(0, k as int);
        let ghost next = plan.inputs.subrange(0, k + 1);
        proof {
            lemma_input_untaken(before, now, plan, 0, k as int, k as int);
            assert(next.subrange(0, next.len() - 1) =~= first);
            assert(next[next.len() - 1] == sub);
        }
        let result = create_physical_plan_impl(nodes[k], lp_arena, expr_arena, state, Ghost(sub));
        let ghost after = arena_irs(*lp_arena);
        match result {
            Ok(executor) => {
                proof {
                    lemma_taken_on(
                        before,
                        now,
                        after,
                        orders(first),
                        order(sub),
                        order(sub).len() as int,
                    );
                    if halts(sub) {
                        law_sinks_are_refused(now, executor, sub, *expr_arena, *state);
                    }
                }
                out.push(executor);
            },
            Err(error) => {
                proof {
                    let count = choose|count: int| #[trigger]
                        taken(now, after, order(sub), count) && fails(
                            error,
                            count,
                            sub,
                            *expr_arena,
                            *state,
                        );
                    let all = plan.inputs;
                    let total = orders(first).len() + count;
                    lemma_taken_on(before, now, after, orders(first), order(sub), count);
                    lemma_orders_split(all, k + 1);
                    lemma_taken_no_more(
                        before,
                        after,
                        orders(next),
                        orders(all.subrange(k + 1, all.len() as int)),
                        total,
                    );
                    assert(taken(before, after, below(plan), total));
                    assert(total - orders(plan.inputs.subrange(0, k as int)).len() == count);
                    assert(inputs_fail(error, total, plan, *expr_arena, *state));
                }
                return Err(error);
            },
        }
        k += 1;
    }
    assert(plan.inputs.subrange(0, k as int) =~= plan.inputs);
    Ok(out)
}

/// Plans the only input of a node.
fn plan_input(
    ir: &IR,
    lp_arena: &mut Arena<IR>,
    expr_arena: &Arena<AExpr>,
    state: &ConversionState,
    Ghost(plan): Ghost<LogicalTree>,
) -> (r: Result<Box<Executor>, PlanError>)
    requires
        opened(arena_irs(*old(lp_arena)), *ir, plan),
        plan.inputs.len() == 1,
        ready(plan, *expr_arena, *state),
        !is_sink(ir_kind(plan.ir)),
    ensures
        r matches Ok(executor) ==> plans(*executor, plan.inputs[0], *expr_arena, *state)
            && all_taken(arena_irs(*old(lp_arena)), arena_irs(*final(lp_arena)), below(plan)),
        r matches Err(error) ==> exists|count: int| #[trigger]
            taken(arena_irs(*old(lp_arena)), arena_irs(*final(lp_arena)), below(plan), count)
                && inputs_fail(error, count, plan, *expr_arena, *state),
    decreases plan, 0int,
{
    let nodes = inputs_in_order(ir);
    let ghost before = arena_irs(*lp_arena);
    let ghost sub = plan.inputs[0];
    proof {
        lemma_below_few(plan);
        assert(orders(plan.inputs.subrange(0, 0)) =~= Seq::<usize>::empty());
    }
    match create_physical_plan_impl(nodes[0], lp_arena, expr_arena, state, Ghost(sub)) {
        Ok(executor) => Ok(Box::new(executor)),
        Err(error) => {
            proof {
                let after = arena_irs(*lp_arena);
                let count = choose|count: int| #[trigger]
                    taken(before, after, order(sub), count) && fails(
                        error,
                        count,
                        sub,
                        *expr_arena,
                        *state,
                    );
                assert(count - orders(plan.inputs.subrange(0, 0)).len() == count);
                assert(taken(before, after, below(plan), count));
                assert(inputs_fail(error, count, plan, *expr_arena, *state));
            }
            Err(error)
        },
    }
}

/// Plans a filter.
fn plan_filter(
    ir: IR,
    lp_arena: &mut Arena<IR>,
    expr_arena: &Arena<AExpr>,
    state: &ConversionState,
    Ghost(plan): Ghost<LogicalTree>,
) -> (r: Result<Executor, PlanError>)
    requires
        opened(arena_irs(*old(lp_arena)), ir, plan),
        ready(plan, *expr_arena, *state),
        ir_kind(ir) is Filter,
    ensures
        may_go_on(
            r,
            arena_irs(*old(lp_arena)),
            arena_irs(*final(lp_arena)),
            plan,
            *expr_arena,
            *state,
        ),
    decreases plan, 1int,
{
    let nodes = node_inputs(&ir);
    let exprs = node_exprs(&ir);
    let predicate = &exprs[0];
    assert(stands(exprs@[0], *expr_arena));
    let elementwise = is_elementwise(predicate, expr_arena);
    proof {
        lemma_plan_at(arena_irs(*lp_arena), plan.inputs[0]);
    }
    let input_schema = node_schema(lp_arena, nodes[0]);
    let streamable = elementwise && filter_is_streamable(
        elementwise,
        schema_has_categoricals(&input_schema),
        state.uses_string_cache(),
    );
    let input = match plan_input(&ir, lp_arena, expr_arena, state, Ghost(plan)) {
        Ok(input) => input,
        Err(error) => return Err(error),
    };
    assert(plannable(plan.inputs[0], *expr_arena, *state));
    match compile_one(predicate, expr_arena, &input_schema, true, state.expr_depth) {
        Ok(compiled) => Ok(
            Executor::Filter {
                input,
                predicate: compiled.expr,
                has_windows: compiled.has_windows,
                streamable,
            },
        ),
        Err(source) => Err(PlanError::Expression { source }),
    }
}

/// Plans a file scan.
fn plan_scan(
    ir: IR,
    format: ScanFormat,
    sources: usize,
    slice: Option<(i64, usize)>,
    expr_arena: &Arena<AExpr>,
    state: &ConversionState,
    Ghost(plan): Ghost<LogicalTree>,
) -> (r: Result<Executor, PlanError>)
    requires
        ir == plan.ir,
        ir_kind(ir) == (NodeKind::Scan { format, sources, slice }),
        ready(plan, *expr_arena, *state),
    ensures
        r matches Ok(executor) ==> plans(executor, plan, *expr_arena, *state),
        r matches Err(error) ==> fails(error, 1, plan, *expr_arena, *state),
{
    let slice = scan_slice(slice, state.rows_to_fetch());
    let exprs = node_exprs(&ir);
    let mut predicate = None;
    let mut predicate_has_windows = false;
    if exprs.len() > 0 {
        let schema = scan_schema(&ir);
        match compile_one(&exprs[0], expr_arena, &schema, true, state.expr_depth) {
            Ok(compiled) => {
                predicate = Some(compiled.expr);
                predicate_has_windows = compiled.has_windows;
            },
            Err(source) => return Err(PlanError::Expression { source }),
        }
    }
    let reader = scan_reader(format, sources, state.multi_file);
    Ok(Executor::Scan { reader, node: ir, predicate, predicate_has_windows, slice })
}

/// Plans a projection.
fn plan_select(
    ir: IR,
    should_broadcast: bool,
    lp_arena: &mut Arena<IR>,
    expr_arena: &Arena<AExpr>,
    state: &ConversionState,
    Ghost(plan): Ghost<LogicalTree>,
) -> (r: Result<Executor, PlanError>)
    requires
        opened(arena_irs(*old(lp_arena)), ir, plan),
        ready(plan, *expr_arena, *state),
        ir_kind(ir) == (NodeKind::Select { should_broadcast }),
    ensures
        may_go_on(
            r,
            arena_irs(*old(lp_arena)),
            arena_irs(*final(lp_arena)),
            plan,
            *expr_arena,
            *state,
        ),
    decreases plan, 1int,
{
    let nodes = node_inputs(&ir);
    let exprs = node_exprs(&ir);
    proof {
        lemma_plan_at(arena_irs(*lp_arena), plan.inputs[0]);
    }
    let input_schema = node_schema(lp_arena, nodes[0]);
    let input = match plan_input(&ir, lp_arena, expr_arena, state, Ghost(plan)) {
        Ok(input) => input,
        Err(error) => return Err(error),
    };
    assert(plannable(plan.inputs[0], *expr_arena, *state));
    let allow_threading = state.threads > exprs.len();
    let compiled = match compile_all(
        &exprs,
        expr_arena,
        ExprContext::Default,
        &input_schema,
        allow_threading,
        state.expr_depth,
    ) {
        Ok(compiled) => compiled,
        Err(source) => return Err(PlanError::Expression { source }),
    };
    // If all columns are literal we would get one row per thread.
    let allow_vertical_parallelism = should_broadcast && are_elementwise(&exprs, expr_arena)
        && !are_literal(&compiled.exprs);
    Ok(
        Executor::Projection {
            input,
            node: ir,
            exprs: compiled.exprs,
            has_windows: compiled.has_windows,
            input_schema,
            allow_vertical_parallelism,
        },
    )
}

/// Plans added columns.
fn plan_stack(
    ir: IR,
    should_broadcast: bool,
    lp_arena: &mut Arena<IR>,
    expr_arena: &Arena<AExpr>,
    state: &ConversionState,
    Ghost(plan): Ghost<LogicalTree>,
) -> (r: Result<Executor, PlanError>)
    requires
        opened(arena_irs(*old(lp_arena)), ir, plan),
        ready(plan, *expr_arena, *state),
        ir_kind(ir) == (NodeKind::HStack { should_broadcast }),
    ensures
        may_go_on(
            r,
            arena_irs(*old(lp_arena)),
            arena_irs(*final(lp_arena)),
            plan,
            *expr_arena,
            *state,
        ),
    decreases plan, 1int,
{
    let nodes = node_inputs(&ir);
    let exprs = node_exprs(&ir);
    proof {
        lemma_plan_at(arena_irs(*lp_arena), plan.inputs[0]);
    }
    let input_schema = node_schema(lp_arena, nodes[0]);
    let input = match plan_input(&ir, lp_arena, expr_arena, state, Ghost(plan)) {
        Ok(input) => input,
        Err(error) => return Err(error),
    };
    assert(plannable(plan.inputs[0], *expr_arena, *state));
    let allow_vertical_parallelism = should_broadcast && are_elementwise(&exprs, expr_arena);
    let allow_threading = state.threads > exprs.len();
    match compile_all(
        &exprs,
        expr_arena,
        ExprContext::Default,
        &input_schema,
        allow_threading,
        state.expr_depth,
    ) {
        Ok(compiled) => Ok(
            Executor::Stack {
                input,
                node: ir,
                exprs: compiled.exprs,
                has_windows: compiled.has_windows,
                input_schema,
                allow_vertical_parallelism,
            },
        ),
        Err(source) => Err(PlanError::Expression { source }),
    }
}

/// Plans a sort.
fn plan_sort(
    ir: IR,
    lp_arena: &mut Arena<IR>,
    expr_arena: &Arena<AExpr>,
    state: &ConversionState,
    Ghost(plan): Ghost<LogicalTree>,
) -> (r: Result<Executor, PlanError>)
    requires
        opened(arena_irs(*old(lp_arena)), ir, plan),
        ready(plan, *expr_arena, *state),
        ir_kind(ir) is Sort,
    ensures
        may_go_on(
            r,
            arena_irs(*old(lp_arena)),
            arena_irs(*final(lp_arena)),
            plan,
            *expr_arena,
            *state,
        ),
    decreases plan, 1int,
{
    let nodes = node_inputs(&ir);
    let exprs = node_exprs(&ir);
    proof {
        lemma_taken_none(arena_irs(*lp_arena), below(plan));
        lemma_plan_at(arena_irs(*lp_arena), plan.inputs[0]);
    }
    let input_schema = node_schema(lp_arena, nodes[0]);
    let compiled = match compile_all(
        &exprs,
        expr_arena,
        ExprContext::Default,
        &input_schema,
        true,
        state.expr_depth,
    ) {
        Ok(compiled) => compiled,
        Err(source) => return Err(PlanError::Expression { source }),
    };
    assert(compile_as(
        exprs@,
        *expr_arena,
        ExprContext::Default,
        input_schema,
        true,
        state.expr_depth,
        compiled.exprs@,
    ));
    match plan_input(&ir, lp_arena, expr_arena, state, Ghost(plan)) {
        Ok(input) => Ok(Executor::Sort { input, node: ir, by_column: compiled.exprs }),
        Err(error) => Err(error),
    }
}

/// Plans a group-by.
fn plan_group_by(
    ir: IR,
    n_keys: usize,
    has_apply: bool,
    dynamic: bool,
    rolling: bool,
    lp_arena: &mut Arena<IR>,
    expr_arena: &Arena<AExpr>,
    state: &ConversionState,
    Ghost(plan): Ghost<LogicalTree>,
) -> (r: Result<Executor, PlanError>)
    requires
        opened(arena_irs(*old(lp_arena)), ir, plan),
        ready(plan, *expr_arena, *state),
        ir_kind(ir) == (NodeKind::GroupBy { keys: n_keys, has_apply, dynamic, rolling }),
    ensures
        may_go_on(
            r,
            arena_irs(*old(lp_arena)),
            arena_irs(*final(lp_arena)),
            plan,
            *expr_arena,
            *state,
        ),
    decreases plan, 1int,
{
    let nodes = node_inputs(&ir);
    let mut keys = node_exprs(&ir);
    let aggs = keys.split_off(n_keys);
    proof {
        assert(keys@ =~= first_exprs(ir));
        assert(aggs@ =~= other_exprs(ir));
        assert forall|i: int| #![trigger keys@[i]] 0 <= i < keys@.len() implies stands(
            keys@[i],
            *expr_arena,
        ) by {
            assert(ir_exprs(ir)[i] == keys@[i]);
        }
        assert forall|i: int| #![trigger aggs@[i]] 0 <= i < aggs@.len() implies stands(
            aggs@[i],
            *expr_arena,
        ) by {
            assert(ir_exprs(ir)[n_keys + i] == aggs@[i]);
        }
        lemma_taken_none(arena_irs(*lp_arena), below(plan));
        lemma_plan_at(arena_irs(*lp_arena), plan.inputs[0]);
    }
    let input_schema = node_schema(lp_arena, nodes[0]);
    let phys_keys = match compile_all(
        &keys,
        expr_arena,
        ExprContext::Default,
        &input_schema,
        true,
        state.expr_depth,
    ) {
        Ok(compiled) => compiled,
        Err(source) => return Err(PlanError::Expression { source }),
    };
    assert(compile_as(
        keys@,
        *expr_arena,
        ExprContext::Default,
        input_schema,
        true,
        state.expr_depth,
        phys_keys.exprs@,
    ));
    let phys_aggs = match compile_all(
        &aggs,
        expr_arena,
        ExprContext::Aggregation,
        &input_schema,
        true,
        state.expr_depth,
    ) {
        Ok(compiled) => compiled,
        Err(source) => return Err(PlanError::Expression { source }),
    };
    assert(compile_as(
        aggs@,
        *expr_arena,
        ExprContext::Aggregation,
        input_schema,
        true,
        state.expr_depth,
        phys_aggs.exprs@,
    ));
    let grouping = if dynamic {
        Grouping::Dynamic
    } else if rolling {
        Grouping::Rolling
    } else if partitionable_gb(&keys, &aggs, &input_schema, expr_arena, has_apply) {
        Grouping::Partitioned {
            from_partitioned_ds: finds_partitioned(lp_arena, nodes[0], Ghost(plan.inputs[0])),
            keys: to_exprs(&keys, expr_arena),
            aggs: to_exprs(&aggs, expr_arena),
        }
    } else {
        Grouping::Whole
    };
    assert(may_group(grouping, plan, *expr_arena, input_schema));
    match plan_input(&ir, lp_arena, expr_arena, state, Ghost(plan)) {
        Ok(input) => Ok(
            Executor::GroupBy {
                input,
                node: ir,
                keys: phys_keys.exprs,
                aggs: phys_aggs.exprs,
                input_schema,
                grouping,
            },
        ),
        Err(error) => Err(error),
    }
}

/// Plans a join.
fn plan_join(
    ir: IR,
    n_left: usize,
    force_parallel: bool,
    allow_parallel: bool,
    lp_arena: &mut Arena<IR>,
    expr_arena: &Arena<AExpr>,
    state: &ConversionState,
    Ghost(plan): Ghost<LogicalTree>,
) -> (r: Result<Executor, PlanError>)
    requires
        opened(arena_irs(*old(lp_arena)), ir, plan),
        ready(plan, *expr_arena, *state),
        ir_kind(ir) == (NodeKind::Join { left_on: n_left, force_parallel, allow_parallel }),
    ensures
        may_go_on(
            r,
            arena_irs(*old(lp_arena)),
            arena_irs(*final(lp_arena)),
            plan,
            *expr_arena,
            *state,
        ),
    decreases plan, 1int,
{
    let ghost before = arena_irs(*lp_arena);
    let nodes = node_inputs(&ir);
    let mut left_on = node_exprs(&ir);
    let right_on = left_on.split_off(n_left);
    let ghost left_plan = plan.inputs[0];
    let ghost right_plan = plan.inputs[1];
    proof {
        assert(left_on@ =~= first_exprs(ir));
        assert(right_on@ =~= other_exprs(ir));
        assert(plan.inputs.subrange(0, 2) =~= plan.inputs);
        lemma_plan_at(arena_irs(*lp_arena), left_plan);
        lemma_plan_at(arena_irs(*lp_arena), right_plan);
    }
    // Two sides that read one file may block each other.
    let parallel = if force_parallel {
        true
    } else if allow_parallel {
        !shares_source(lp_arena, nodes[0], nodes[1], Ghost(left_plan), Ghost(right_plan))
    } else {
        false
    };
    let schema_left = node_schema(lp_arena, nodes[0]);
    let schema_right = node_schema(lp_arena, nodes[1]);
    let mut inputs = match plan_inputs(&nodes, lp_arena, expr_arena, state, Ghost(plan)) {
        Ok(inputs) => inputs,
        Err(error) => {
            proof {
                lemma_stop_goes_on(error, before, arena_irs(*lp_arena), plan, *expr_arena, *state);
            }
            return Err(error);
        },
    };
    let ghost planned = inputs@;
    proof {
        assert(below(plan) == orders(plan.inputs));
        assert(taken(before, arena_irs(*lp_arena), below(plan), below(plan).len() as int));
        assert(order(plan).len() == below(plan).len() + 1);
        assert(plans(planned[0], plan.inputs[0], *expr_arena, *state));
        assert(plans(planned[1], plan.inputs[1], *expr_arena, *state));
    }
    let input_right = Box::new(inputs.remove(1));
    let input_left = Box::new(inputs.remove(0));
    let phys_left = match compile_all(
        &left_on,
        expr_arena,
        ExprContext::Default,
        &schema_left,
        true,
        state.expr_depth,
    ) {
        Ok(compiled) => compiled,
        Err(source) => return Err(PlanError::Expression { source }),
    };
    assert(compile_as(
        left_on@,
        *expr_arena,
        ExprContext::Default,
        schema_left,
        true,
        state.expr_depth,
        phys_left.exprs@,
    ));
    let phys_right = match compile_all(
        &right_on,
        expr_arena,
        ExprContext::Default,
        &schema_right,
        true,
        state.expr_depth,
    ) {
        Ok(compiled) => compiled,
        Err(source) => return Err(PlanError::Expression { source }),
    };
    assert(compile_as(
        right_on@,
        *expr_arena,
        ExprContext::Default,
        schema_right,
        true,
        state.expr_depth,
        phys_right.exprs@,
    ));
    let mut filter = None;
    if let Some((predicate, schema)) = cross_filter(&ir) {
        match compile_one(&predicate, expr_arena, &schema, false, state.expr_depth) {
            Ok(compiled) => {
                filter = Some(compiled.expr);
            },
            Err(source) => return Err(PlanError::Expression { source }),
        }
    }
    assert(cross_filter_fits(filter, plan, *expr_arena, *state));
    Ok(
        Executor::Join {
            input_left,
            input_right,
            node: ir,
            left_on: phys_left.exprs,
            right_on: phys_right.exprs,
            parallel,
            cross_filter: filter,
        },
    )
}

/// Plans a node that has any number of inputs and nothing else to plan: puts them together,
/// or, for an external context, plans its input first and then the contexts.
fn plan_many(
    ir: IR,
    lp_arena: &mut Arena<IR>,
    expr_arena: &Arena<AExpr>,
    state: &ConversionState,
    Ghost(plan): Ghost<LogicalTree>,
) -> (r: Result<Executor, PlanError>)
    requires
        opened(arena_irs(*old(lp_arena)), ir, plan),
        ready(plan, *expr_arena, *state),
        ir_kind(ir) is Union || ir_kind(ir) is HConcat || ir_kind(ir) is ExtContext,
    ensures
        may_go_on(
            r,
            arena_irs(*old(lp_arena)),
            arena_irs(*final(lp_arena)),
            plan,
            *expr_arena,
            *state,
        ),
    decreases plan, 1int,
{
    let ghost before = arena_irs(*lp_arena);
    let nodes = inputs_in_order(&ir);
    let mut inputs = match plan_inputs(&nodes, lp_arena, expr_arena, state, Ghost(plan)) {
        Ok(inputs) => inputs,
        Err(error) => {
            proof {
                lemma_stop_goes_on(error, before, arena_irs(*lp_arena), plan, *expr_arena, *state);
            }
            return Err(error);
        },
    };
    match node_kind(&ir) {
        NodeKind::Union { .. } => Ok(Executor::Union { node: ir, inputs }),
        NodeKind::HConcat => Ok(Executor::HConcat { node: ir, inputs }),
        _ => {
            let ghost planned = inputs@;
            let input = Box::new(inputs.remove(0));
            proof {
                assert(plans(planned[0], plan.inputs[0], *expr_arena, *state));
                assert forall|i: int| #![trigger plan.inputs[i]] 0 < i < plan.inputs.len() implies
                    plans(inputs@[i - 1], plan.inputs[i], *expr_arena, *state) by {
                    assert(inputs@[i - 1] == planned[i]);
                }
            }
            Ok(Executor::ExternalContext { input, contexts: inputs })
        },
    }
}

/// Taking the root of a plan and going on is planning the plan.
proof fn lemma_goes_on(
    result: Result<Executor, PlanError>,
    before: Seq<IR>,
    open: Seq<IR>,
    after: Seq<IR>,
    plan: LogicalTree,
    arena: Arena<AExpr>,
    state: ConversionState,
)
    requires
        all_taken(before, open, seq![plan.node]),
        may_go_on(result, open, after, plan, arena, state),
    ensures
        may_result(result, before, after, plan, arena, state),
{
    let nodes = seq![plan.node];
    assert(order(plan) =~= nodes + below(plan));
    match result {
        Ok(_) => {
            lemma_taken_on(before, open, after, nodes, below(plan), below(plan).len() as int);
        },
        Err(error) => {
            let count = choose|count: int| #[trigger]
                taken(open, after, below(plan), count) && fails(
                    error,
                    count + 1,
                    plan,
                    arena,
                    state,
                );
            lemma_taken_on(before, open, after, nodes, below(plan), count);
            assert(nodes.len() + count == count + 1);
        },
    }
}

/// An error of the inputs of a plan is an error of the plan.
proof fn lemma_stop_goes_on(
    error: PlanError,
    open: Seq<IR>,
    after: Seq<IR>,
    plan: LogicalTree,
    arena: Arena<AExpr>,
    state: ConversionState,
)
    requires
        may_stop(error, open, after, plan, arena, state),
        ir_kind(plan.ir) is Union || ir_kind(plan.ir) is HConcat || ir_kind(plan.ir) is ExtContext
            || ir_kind(plan.ir) is Join,
    ensures
        may_go_on(Err(error), open, after, plan, arena, state),
{
    let count = choose|count: int| #[trigger]
        taken(open, after, below(plan), count) && inputs_fail(error, count, plan, arena, state);
    assert(count + 1 - 1 == count);
    assert(fails(error, count + 1, plan, arena, state));
}

/// Plans the plan under `root`: takes its node out of the arena, plans the inputs of the
/// node and builds its executor.
///
/// A node compiles its expressions after its inputs are planned; only sorting and grouping
/// compile theirs first.
fn create_physical_plan_impl(
    root: usize,
    lp_arena: &mut Arena<IR>,
    expr_arena: &Arena<AExpr>,
    state: &ConversionState,
    Ghost(plan): Ghost<LogicalTree>,
) -> (r: Result<Executor, PlanError>)
    requires
        represents(arena_irs(*old(lp_arena)), plan),
        plan.node == root,
        distinct(plan),
        ready(plan, *expr_arena, *state),
    ensures
        may_result(
            r,
            arena_irs(*old(lp_arena)),
            arena_irs(*final(lp_arena)),
            plan,
            *expr_arena,
            *state,
        ),
    decreases plan, 2int,
{
    let ghost before = arena_irs(*lp_arena);
    let ir = arena_take(lp_arena, root);
    let ghost open = arena_irs(*lp_arena);
    proof {
        lemma_opened(before, open, plan);
        lemma_taken_one(before, open, root);
        lemma_taken_none(open, below(plan));
        lemma_below_few(plan);
    }
    let r = match node_kind(&ir) {
        NodeKind::MemorySink => Err(PlanError::MemorySink),
        NodeKind::FileSink => Err(PlanError::FileSink { file_type: sink_file_type(&ir) }),
        NodeKind::Union { .. } | NodeKind::HConcat | NodeKind::ExtContext => plan_many(
            ir,
            lp_arena,
            expr_arena,
            state,
            Ghost(plan),
        ),
        NodeKind::Slice { offset, len } => match plan_input(
            &ir,
            lp_arena,
            expr_arena,
            state,
            Ghost(plan),
        ) {
            Ok(input) => Ok(Executor::Slice { input, offset, len }),
            Err(error) => Err(error),
        },
        NodeKind::Filter => plan_filter(ir, lp_arena, expr_arena, state, Ghost(plan)),
        NodeKind::Scan { format, sources, slice } => plan_scan(
            ir,
            format,
            sources,
            slice,
            expr_arena,
            state,
            Ghost(plan),
        ),
        NodeKind::Select { should_broadcast } => plan_select(
            ir,
            should_broadcast,
            lp_arena,
            expr_arena,
            state,
            Ghost(plan),
        ),
        NodeKind::DataFrameScan => {
            let projection = scan_projection(&ir);
            Ok(Executor::DataFrame { node: ir, projection })
        },
        NodeKind::Sort => plan_sort(ir, lp_arena, expr_arena, state, Ghost(plan)),
        NodeKind::Cache { id, cache_hits } => match plan_input(
            &ir,
            lp_arena,
            expr_arena,
            state,
            Ghost(plan),
        ) {
            Ok(input) => Ok(Executor::Cache { input, id, count: cache_hits }),
            Err(error) => Err(error),
        },
        NodeKind::Distinct => match plan_input(&ir, lp_arena, expr_arena, state, Ghost(plan)) {
            Ok(input) => Ok(Executor::Unique { input, node: ir }),
            Err(error) => Err(error),
        },
        NodeKind::GroupBy { keys, has_apply, dynamic, rolling } => plan_group_by(
            ir,
            keys,
            has_apply,
            dynamic,
            rolling,
            lp_arena,
            expr_arena,
            state,
            Ghost(plan),
        ),
        NodeKind::Join { left_on, force_parallel, allow_parallel } => plan_join(
            ir,
            left_on,
            force_parallel,
            allow_parallel,
            lp_arena,
            expr_arena,
            state,
            Ghost(plan),
        ),
        NodeKind::HStack { should_broadcast } => plan_stack(
            ir,
            should_broadcast,
            lp_arena,
            expr_arena,
            state,
            Ghost(plan),
        ),
        NodeKind::MapFunction => match plan_input(&ir, lp_arena, expr_arena, state, Ghost(plan)) {
            Ok(input) => Ok(Executor::Udf { input, node: ir }),
            Err(error) => Err(error),
        },
        NodeKind::SimpleProjection => match plan_input(
            &ir,
            lp_arena,
            expr_arena,
            state,
            Ghost(plan),
        ) {
            Ok(input) => Ok(Executor::ProjectionSimple { input, node: ir }),
            Err(error) => Err(error),
        },
        NodeKind::Invalid => unreached(),
    };
    proof {
        lemma_goes_on(r, before, open, arena_irs(*lp_arena), plan, *expr_arena, *state);
    }
    r
}

/// Taking the root of a plan leaves its inputs where they are.
proof fn lemma_opened(before: Seq<IR>, open: Seq<IR>, plan: LogicalTree)
    requires
        represents(before, plan),
        distinct(plan),
        open.len() == before.len(),
        forall|n: int| 0 <= n < before.len() && n != plan.node ==> #[trigger] open[n] == before[n],
    ensures
        opened(open, plan.ir, plan),
{
    assert forall|i: int| #![trigger plan.inputs[i]] 0 <= i < plan.inputs.len() implies represents(
        open,
        plan.inputs[i],
    ) by {
        assert forall|n: usize| #[trigger] has_node(plan.inputs[i], n) implies open[n as int]
            == before[n as int] by {
            lemma_nodes_in_arena(before, plan.inputs[i], n);
            assert(n != plan.node);
        }
        lemma_plan_kept(before, open, plan.inputs[i]);
    }
}

/// Plans the plan under `root`, in given surroundings.
///
/// The nodes of the plan are taken out of the arena.
pub fn create_physical_plan_in(
    root: Node,
    lp_arena: &mut Arena<IR>,
    expr_arena: &Arena<AExpr>,
    state: &ConversionState,
) -> (r: Result<Executor, PlanError>)
    requires
        is_tree(arena_irs(*old(lp_arena)), node_index(root)),
        ready(root_plan(arena_irs(*old(lp_arena)), node_index(root)), *expr_arena, *state),
    ensures
        may_result(
            r,
            arena_irs(*old(lp_arena)),
            arena_irs(*final(lp_arena)),
            root_plan(arena_irs(*old(lp_arena)), node_index(root)),
            *expr_arena,
            *state,
        ),
{
    let node: usize = index_of(root);
    let ghost plan = root_plan(arena_irs(*lp_arena), node);
    create_physical_plan_impl(node, lp_arena, expr_arena, state, Ghost(plan))
}

/// Whether planning the plan under `root` may have this result and leave the arena so, in
/// some surroundings: either polars cannot read the limit of the depth of expressions, and
/// nothing has happened, or the plan has been planned.
pub open spec fn may_plan(
    result: Result<Executor, PlanError>,
    root: Node,
    before: Arena<IR>,
    after: Arena<IR>,
    arena: Arena<AExpr>,
    threads: usize,
    multi_file: bool,
) -> bool {
    let plan = root_plan(arena_irs(before), node_index(root));
    ||| (result matches Err(error) && error is DepthLimit && after == before)
    ||| exists|state: ConversionState| #[trigger]
        may_result(result, arena_irs(before), arena_irs(after), plan, arena, state)
            && state.threads == threads && state.multi_file == multi_file
            && state.string_cache is LookedUp && state.fetch_rows is LookedUp
}

/// Plans the plan under `root`: turns each node into the executor that runs it.
///
/// The nodes of the plan are taken out of the arena. Where polars cannot read the limit of
/// the depth of expressions, the arena stays as it is.
pub fn create_physical_plan(
    root: Node,
    lp_arena: &mut Arena<IR>,
    expr_arena: &Arena<AExpr>,
    threads: usize,
    multi_file: bool,
) -> (r: Result<Executor, PlanError>)
    requires
        is_tree(arena_irs(*old(lp_arena)), node_index(root)),
        forall|state: ConversionState|
            state.threads == threads ==> #[trigger] ready(
                root_plan(arena_irs(*old(lp_arena)), node_index(root)),
                *expr_arena,
                state,
            ),
    ensures
        may_plan(r, root, *old(lp_arena), *final(lp_arena), *expr_arena, threads, multi_file),
{
    let state = match ConversionState::new(threads, multi_file) {
        Ok(state) => state,
        Err(error) => return Err(error),
    };
    create_physical_plan_in(root, lp_arena, expr_arena, &state)
}

/// Plans the plan under `root`, in given surroundings, if that can go ahead without a look
/// into any function.
///
/// It is not tried, and the arena stays as it is, where the plan is not a tree, where one
/// of its expressions is not in the arena, calls a function or is too deep, or where a
/// schema that is needed is not written in the plan.
pub fn checked_create_physical_plan_in(
    root: Node,
    lp_arena: &mut Arena<IR>,
    expr_arena: &Arena<AExpr>,
    state: &ConversionState,
) -> (r: Option<Result<Executor, PlanError>>)
    ensures
        r is Some <==> is_tree(arena_irs(*old(lp_arena)), node_index(root)) && vouched(
            root_plan(arena_irs(*old(lp_arena)), node_index(root)),
            *expr_arena,
            state.expr_depth,
        ),
        r is None ==> *final(lp_arena) == *old(lp_arena),
        r matches Some(result) ==> may_result(
            result,
            arena_irs(*old(lp_arena)),
            arena_irs(*final(lp_arena)),
            root_plan(arena_irs(*old(lp_arena)), node_index(root)),
            *expr_arena,
            *state,
        ),
{
    if !plan_is_vouched(lp_arena, index_of(root), expr_arena, state.expr_depth) {
        return None;
    }
    proof {
        let irs = arena_irs(*lp_arena);
        law_vouched_plans_are_ready(irs, root_plan(irs, node_index(root)), *expr_arena, *state);
    }
    Some(create_physical_plan_in(root, lp_arena, expr_arena, state))
}

/// Plans the plan under `root` if that can go ahead without a look into any function, as
/// [`checked_create_physical_plan_in`] does in the surroundings that it finds.
pub fn checked_create_physical_plan(
    root: Node,
    lp_arena: &mut Arena<IR>,
    expr_arena: &Arena<AExpr>,
    threads: usize,
    multi_file: bool,
) -> (r: Option<Result<Executor, PlanError>>)
    ensures
        r is None ==> *final(lp_arena) == *old(lp_arena) && !(is_tree(
            arena_irs(*old(lp_arena)),
            node_index(root),
        ) && forall|depth: u16| #[trigger]
            vouched(
                root_plan(arena_irs(*old(lp_arena)), node_index(root)),
                *expr_arena,
                depth,
            )),
        r matches Some(result) ==> may_plan(
            result,
            root,
            *old(lp_arena),
            *final(lp_arena),
            *expr_arena,
            threads,
            multi_file,
        ),
{
    match ConversionState::new(threads, multi_file) {
        Ok(state) => checked_create_physical_plan_in(root, lp_arena, expr_arena, &state),
        Err(error) => Some(Err(error)),
    }
}

} // verus!
