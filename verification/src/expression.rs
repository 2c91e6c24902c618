//! Expressions: what the library asks `polars_plan` and `polars_expr` of them.
use crate::graph::{edge_view, ground, grounded, shape_at, size, Shape};
use polars_core::error::PolarsError;
use polars_core::prelude::DataType;
use polars_expr::planner::create_physical_expressions_from_irs;
use polars_expr::prelude::{PhysicalExpr, PhysicalIoHelper};
use polars_expr::{create_physical_expr, ExpressionConversionState};
use polars_plan::prelude::expr_ir::ExprIR;
use polars_plan::prelude::{
    can_pre_agg_exprs, has_aexpr, is_elementwise_rec_no_cat_cast, AExpr, Arena, ArenaExprIter,
    Context, Expr, LiteralValue, Node,
};
use polars_schema::Schema;
use std::sync::Arc;
use vstd::prelude::*;

verus! {

/// What the library reads of a node of an expression.
pub struct ExprNode {
    /// The places of the inputs of the node, the last one first.
    pub inputs: Seq<usize>,
    /// Whether the node is a literal that holds a series.
    pub literal_series: bool,
    /// Whether the node calls a function, a built-in one or one of the user's.
    pub function: bool,
}

/// Where an expression is evaluated: on columns, or on groups.
#[derive(Clone, Copy)]
pub enum ExprContext {
    Default,
    Aggregation,
}

/// An expression that can be evaluated.
pub struct CompiledExpr {
    pub expr: PhysicalIoHelper,
    /// Whether a window function occurs in it.
    pub has_windows: bool,
}

/// Expressions that can be evaluated.
pub struct CompiledExprs {
    pub exprs: Vec<PhysicalIoHelper>,
    /// Whether a window function occurs in one of them.
    pub has_windows: bool,
}

/// The nodes that an expression arena holds.
pub uninterp spec fn expr_nodes(arena: Arena<AExpr>) -> Seq<ExprNode>;

/// The place of the expression of a plan node.
pub uninterp spec fn expr_node(expr: ExprIR) -> usize;

/// The places of an arena whose expressions work row by row, without a cast to a
/// categorical type.
pub uninterp spec fn elementwise_exprs(arena: Arena<AExpr>) -> Set<usize>;

/// What polars answers when asked whether aggregations can be split over partitions, or
/// nothing where it does not come back. A function of the user's has no say in the answer:
/// polars may ask it for its type, and then refuses the aggregation all the same.
pub uninterp spec fn pre_agg_answer(
    aggs: Seq<ExprIR>,
    arena: Arena<AExpr>,
    schema: Arc<Schema<DataType>>,
) -> Option<bool>;

/// An expression as the user wrote it.
pub uninterp spec fn expr_form(expr: ExprIR, arena: Arena<AExpr>) -> Expr;

/// Whether a compiled expression is a literal.
pub uninterp spec fn is_literal_expr(expr: PhysicalIoHelper) -> bool;

/// The data types of a schema, in order.
pub uninterp spec fn schema_dtypes(schema: Schema<DataType>) -> Seq<DataType>;

/// Whether a categorical type occurs in a data type.
pub uninterp spec fn is_categorical(dtype: DataType) -> bool;

/// What may come of compiling an expression: the compiled expression and whether a
/// window function occurs in it, or an error, whose form depends on the environment. A
/// function of the user's that does not always give the same type may make the expression
/// compile at one time and fail at another; no outcome means that polars panics.
pub uninterp spec fn expr_outcomes(
    expr: ExprIR,
    arena: Arena<AExpr>,
    context: ExprContext,
    schema: Arc<Schema<DataType>>,
    allow_threading: bool,
    depth: u16,
) -> Set<Result<(PhysicalIoHelper, bool), PolarsError>>;

/// The inputs of each node of an expression arena.
pub open spec fn expr_edges(arena: Arena<AExpr>) -> Seq<Seq<usize>> {
    expr_nodes(arena).map_values(|node: ExprNode| node.inputs)
}

/// Whether an expression stands in the arena: every input that can be reached is there,
/// and no node is its own input, however far down.
pub open spec fn stands(expr: ExprIR, arena: Arena<AExpr>) -> bool {
    grounded(expr_edges(arena), expr_node(expr))
}

/// The tree of an expression.
pub open spec fn expr_shape(expr: ExprIR, arena: Arena<AExpr>) -> Shape {
    shape_at(expr_edges(arena), expr_node(expr))
}

/// Whether a literal that holds a series occurs in an expression.
pub open spec fn has_literal_series(nodes: Seq<ExprNode>, shape: Shape) -> bool
    decreases shape,
{
    nodes[shape.node as int].literal_series || exists|i: int|
        #![trigger shape.inputs[i]]
        0 <= i < shape.inputs.len() && has_literal_series(nodes, shape.inputs[i])
}

/// Whether an expression calls a function.
pub open spec fn has_function(nodes: Seq<ExprNode>, shape: Shape) -> bool
    decreases shape,
{
    nodes[shape.node as int].function || exists|i: int|
        #![trigger shape.inputs[i]]
        0 <= i < shape.inputs.len() && has_function(nodes, shape.inputs[i])
}

/// Whether an expression stands in the arena and calls no function. Polars works on such
/// an expression without calling into code that it does not know.
pub open spec fn is_plain(expr: ExprIR, arena: Arena<AExpr>) -> bool {
    stands(expr, arena) && !has_function(expr_nodes(arena), expr_shape(expr, arena))
}

/// Whether polars comes back from the question whether aggregations can be split over
/// partitions.
pub open spec fn pre_aggregates(
    aggs: Seq<ExprIR>,
    arena: Arena<AExpr>,
    schema: Arc<Schema<DataType>>,
) -> bool {
    all_plain(aggs, arena) || pre_agg_answer(aggs, arena, schema) is Some
}

/// What may come of compiling an expression. Whether an expression that calls no function
/// compiles is settled: it always does, or never.
pub open spec fn expr_answers(
    expr: ExprIR,
    arena: Arena<AExpr>,
    context: ExprContext,
    schema: Arc<Schema<DataType>>,
    allow_threading: bool,
    depth: u16,
) -> Set<Result<(PhysicalIoHelper, bool), PolarsError>> {
    let outcomes = expr_outcomes(expr, arena, context, schema, allow_threading, depth);
    if is_plain(expr, arena) {
        outcomes.filter(
            |outcome: Result<(PhysicalIoHelper, bool), PolarsError>|
                outcome is Ok <==> outcomes.choose() is Ok,
        )
    } else {
        outcomes
    }
}

/// Whether an expression is plain and has fewer nodes than `depth`, where that is not zero.
/// Polars compiles such an expression without reading the environment for a warning.
pub open spec fn is_shallow(expr: ExprIR, arena: Arena<AExpr>, depth: u16) -> bool {
    is_plain(expr, arena) && (depth == 0 || size(expr_shape(expr, arena)) < depth)
}

/// Whether all expressions are plain and have fewer nodes than `depth`, where that is not
/// zero.
pub open spec fn all_shallow(exprs: Seq<ExprIR>, arena: Arena<AExpr>, depth: u16) -> bool {
    forall|i: int| #![trigger exprs[i]] 0 <= i < exprs.len() ==> is_shallow(exprs[i], arena, depth)
}

/// Whether polars comes back from compiling an expression, with a result or an error.
pub open spec fn compiles(
    expr: ExprIR,
    arena: Arena<AExpr>,
    context: ExprContext,
    schema: Arc<Schema<DataType>>,
    allow_threading: bool,
    depth: u16,
) -> bool {
    is_shallow(expr, arena, depth) || exists|
        outcome: Result<(PhysicalIoHelper, bool), PolarsError>,
    | #[trigger]
        expr_outcomes(expr, arena, context, schema, allow_threading, depth).contains(outcome)
}

/// Whether polars comes back from compiling each of the expressions.
pub open spec fn all_compile(
    exprs: Seq<ExprIR>,
    arena: Arena<AExpr>,
    context: ExprContext,
    schema: Arc<Schema<DataType>>,
    allow_threading: bool,
    depth: u16,
) -> bool {
    forall|i: int|
        #![trigger exprs[i]]
        0 <= i < exprs.len() ==> compiles(exprs[i], arena, context, schema, allow_threading, depth)
}

/// Whether expressions may compile to `compiled`, where `windows` says of each whether a
/// window function occurs in it.
pub open spec fn compile_to(
    exprs: Seq<ExprIR>,
    arena: Arena<AExpr>,
    context: ExprContext,
    schema: Arc<Schema<DataType>>,
    allow_threading: bool,
    depth: u16,
    compiled: Seq<PhysicalIoHelper>,
    windows: Seq<bool>,
) -> bool {
    &&& compiled.len() == exprs.len()
    &&& windows.len() == exprs.len()
    &&& forall|i: int|
        #![trigger exprs[i]]
        0 <= i < exprs.len() ==> expr_answers(
            exprs[i],
            arena,
            context,
            schema,
            allow_threading,
            depth,
        ).contains(Ok((compiled[i], windows[i])))
}

/// Whether expressions may compile to `compiled`, with a window function in one of them
/// or in none.
pub open spec fn compile_into(
    exprs: Seq<ExprIR>,
    arena: Arena<AExpr>,
    context: ExprContext,
    schema: Arc<Schema<DataType>>,
    allow_threading: bool,
    depth: u16,
    compiled: Seq<PhysicalIoHelper>,
    has_windows: bool,
) -> bool {
    exists|windows: Seq<bool>| #[trigger]
        compile_to(exprs, arena, context, schema, allow_threading, depth, compiled, windows)
            && has_windows == windows.contains(true)
}

/// Whether expressions may compile to `compiled`.
pub open spec fn compile_as(
    exprs: Seq<ExprIR>,
    arena: Arena<AExpr>,
    context: ExprContext,
    schema: Arc<Schema<DataType>>,
    allow_threading: bool,
    depth: u16,
    compiled: Seq<PhysicalIoHelper>,
) -> bool {
    exists|windows: Seq<bool>| #[trigger]
        compile_to(exprs, arena, context, schema, allow_threading, depth, compiled, windows)
}

/// Whether all of the expressions may compile.
pub open spec fn may_compile(
    exprs: Seq<ExprIR>,
    arena: Arena<AExpr>,
    context: ExprContext,
    schema: Arc<Schema<DataType>>,
    allow_threading: bool,
    depth: u16,
) -> bool {
    exists|compiled: Seq<PhysicalIoHelper>| #[trigger]
        compile_as(exprs, arena, context, schema, allow_threading, depth, compiled)
}

/// Whether compiling expressions one after the other may end in an error: one of them
/// fails, and those before it may compile.
pub open spec fn may_fail(
    exprs: Seq<ExprIR>,
    arena: Arena<AExpr>,
    context: ExprContext,
    schema: Arc<Schema<DataType>>,
    allow_threading: bool,
    depth: u16,
    error: PolarsError,
) -> bool {
    exists|i: int|
        #![trigger exprs[i]]
        0 <= i < exprs.len() && expr_answers(
            exprs[i],
            arena,
            context,
            schema,
            allow_threading,
            depth,
        ).contains(Err(error)) && may_compile(
            exprs.take(i),
            arena,
            context,
            schema,
            allow_threading,
            depth,
        )
}

/// Whether all expressions stand in the arena.
pub open spec fn all_stand(exprs: Seq<ExprIR>, arena: Arena<AExpr>) -> bool {
    forall|i: int| #![trigger exprs[i]] 0 <= i < exprs.len() ==> stands(exprs[i], arena)
}

/// Whether all expressions stand in the arena and call no function.
pub open spec fn all_plain(exprs: Seq<ExprIR>, arena: Arena<AExpr>) -> bool {
    forall|i: int| #![trigger exprs[i]] 0 <= i < exprs.len() ==> is_plain(exprs[i], arena)
}

/// Whether all expressions work row by row.
pub open spec fn all_elementwise(exprs: Seq<ExprIR>, arena: Arena<AExpr>) -> bool {
    forall|i: int|
        #![trigger exprs[i]]
        0 <= i < exprs.len() ==> elementwise_exprs(arena).contains(expr_node(exprs[i]))
}

/// Whether all compiled expressions are literals.
pub open spec fn all_literal(exprs: Seq<PhysicalIoHelper>) -> bool {
    forall|i: int| 0 <= i < exprs.len() ==> #[trigger] is_literal_expr(exprs[i])
}

/// Whether a categorical type occurs in a schema.
pub open spec fn has_categoricals(schema: Schema<DataType>) -> bool {
    exists|i: int|
        0 <= i < schema_dtypes(schema).len() && #[trigger] is_categorical(schema_dtypes(schema)[i])
}

/// `ExprIR::node`.
#[verifier::external_body]
pub(crate) fn place_of(expr: &ExprIR) -> (r: usize)
    ensures
        r == expr_node(*expr),
{
    expr.node().0
}

/// `Arena::len` of an expression arena.
#[verifier::external_body]
fn expr_arena_len(arena: &Arena<AExpr>) -> (r: usize)
    ensures
        r == expr_nodes(*arena).len(),
{
    arena.len()
}

/// `AExpr::inputs_rev` of a node: its inputs, the last one first.
#[verifier::external_body]
fn inputs_of(arena: &Arena<AExpr>, node: usize) -> (r: Vec<usize>)
    requires
        node < expr_nodes(*arena).len(),
    ensures
        r@ == expr_nodes(*arena)[node as int].inputs,
{
    let mut inputs: Vec<Node> = Vec::new();
    arena.get(Node(node)).inputs_rev(&mut inputs);
    inputs.into_iter().map(|input| input.0).collect()
}

/// The iterator of `ArenaExprIter`, cut after so many nodes and counted: it gives each node
/// of the expression, as often as it occurs.
#[verifier::external_body]
pub(crate) fn count_nodes(expr: &ExprIR, arena: &Arena<AExpr>, limit: usize) -> (r: usize)
    requires
        stands(*expr, *arena),
    ensures
        r == if size(expr_shape(*expr, *arena)) < limit {
            size(expr_shape(*expr, *arena))
        } else {
            limit as nat
        },
{
    arena.iter(expr.node()).take(limit).count()
}

/// `has_aexpr` for a literal that holds a series.
#[verifier::external_body]
pub(crate) fn holds_literal_series(expr: &ExprIR, arena: &Arena<AExpr>) -> (r: bool)
    requires
        stands(*expr, *arena),
    ensures
        r == has_literal_series(expr_nodes(*arena), expr_shape(*expr, *arena)),
{
    has_aexpr(expr.node(), arena, |node| matches!(node, AExpr::Literal(LiteralValue::Series(_))))
}

/// `has_aexpr` for a node that calls a function.
#[verifier::external_body]
pub(crate) fn calls_function(expr: &ExprIR, arena: &Arena<AExpr>) -> (r: bool)
    requires
        stands(*expr, *arena),
    ensures
        r == has_function(expr_nodes(*arena), expr_shape(*expr, *arena)),
{
    has_aexpr(expr.node(), arena, |node| {
        matches!(node, AExpr::Function { .. } | AExpr::AnonymousFunction { .. })
    })
}

/// `is_elementwise_rec_no_cat_cast`.
#[verifier::external_body]
pub(crate) fn is_elementwise(expr: &ExprIR, arena: &Arena<AExpr>) -> (r: bool)
    requires
        stands(*expr, *arena),
    ensures
        r == elementwise_exprs(*arena).contains(expr_node(*expr)),
{
    is_elementwise_rec_no_cat_cast(arena.get(expr.node()), arena)
}

/// `can_pre_agg_exprs`. It comes back where no aggregation calls a function; where one does,
/// that depends on the function. The same aggregations have the same answer.
#[verifier::external_body]
pub(crate) fn can_pre_aggregate(
    aggs: &Vec<ExprIR>,
    arena: &Arena<AExpr>,
    schema: &Arc<Schema<DataType>>,
) -> (r: bool)
    requires
        pre_aggregates(aggs@, *arena, *schema),
    ensures
        pre_agg_answer(aggs@, *arena, *schema) == Some(r),
{
    can_pre_agg_exprs(aggs, arena, schema)
}

/// `ExprIR::to_expr`.
#[verifier::external_body]
pub(crate) fn to_expr(expr: &ExprIR, arena: &Arena<AExpr>) -> (r: Expr)
    requires
        stands(*expr, *arena),
    ensures
        r == expr_form(*expr, *arena),
{
    expr.to_expr(arena)
}

/// `PhysicalExpr::is_literal`.
#[verifier::external_body]
pub(crate) fn is_literal(expr: &PhysicalIoHelper) -> (r: bool)
    ensures
        r == is_literal_expr(*expr),
{
    expr.expr.is_literal()
}

/// `Schema::iter_values`: the data types of a schema.
#[verifier::external_body]
pub(crate) fn dtypes_of(schema: &Arc<Schema<DataType>>) -> (r: Vec<DataType>)
    ensures
        r@ == schema_dtypes(**schema),
{
    schema.iter_values().cloned().collect()
}

/// `DataType::contains_categoricals`.
#[verifier::external_body]
pub(crate) fn contains_categoricals(dtype: &DataType) -> (r: bool)
    ensures
        r == is_categorical(*dtype),
{
    dtype.contains_categoricals()
}

/// `create_physical_expr` on columns, with a fresh conversion state: one of the outcomes
/// that compiling the expression may have. It comes back where the expression calls no
/// function and has fewer nodes than `depth`. Where it calls one, the function's own code has
/// a say; where it has more nodes, polars reads the environment for a warning. What holds the
/// compiled expression has a flag of its own, which is left unset.
#[verifier::external_body]
pub(crate) fn compile_one(
    expr: &ExprIR,
    arena: &Arena<AExpr>,
    schema: &Arc<Schema<DataType>>,
    allow_threading: bool,
    depth: u16,
) -> (r: Result<CompiledExpr, PolarsError>)
    requires
        compiles(*expr, *arena, ExprContext::Default, *schema, allow_threading, depth),
    ensures
        expr_outcomes(
            *expr,
            *arena,
            ExprContext::Default,
            *schema,
            allow_threading,
            depth,
        ).contains(
            match r {
                Ok(compiled) => Ok((compiled.expr, compiled.has_windows)),
                Err(error) => Err(error),
            },
        ),
        expr_answers(
            *expr,
            *arena,
            ExprContext::Default,
            *schema,
            allow_threading,
            depth,
        ).contains(
            match r {
                Ok(compiled) => Ok((compiled.expr, compiled.has_windows)),
                Err(error) => Err(error),
            },
        ),
{
    let mut state = ExpressionConversionState::new(allow_threading, depth);
    let expr = create_physical_expr(expr, Context::Default, arena, schema, &mut state)?;
    let expr = PhysicalIoHelper { expr, has_window_function: false };
    Ok(CompiledExpr { expr, has_windows: state.has_windows })
}

/// `create_physical_expressions_from_irs` with a fresh conversion state: each expression
/// in turn has one of the outcomes that compiling it alone may have, up to the first
/// error. The state keeps of one expression for the next only whether a window function
/// occurred. It comes back where compiling each expression does.
#[verifier::external_body]
pub(crate) fn compile_all(
    exprs: &Vec<ExprIR>,
    arena: &Arena<AExpr>,
    context: ExprContext,
    schema: &Arc<Schema<DataType>>,
    allow_threading: bool,
    depth: u16,
) -> (r: Result<CompiledExprs, PolarsError>)
    requires
        all_compile(exprs@, *arena, context, *schema, allow_threading, depth),
    ensures
        r matches Ok(compiled) ==> compile_into(
            exprs@,
            *arena,
            context,
            *schema,
            allow_threading,
            depth,
            compiled.exprs@,
            compiled.has_windows,
        ),
        r matches Err(error) ==> may_fail(
            exprs@,
            *arena,
            context,
            *schema,
            allow_threading,
            depth,
            error,
        ),
{
    let context = match context {
        ExprContext::Default => Context::Default,
        ExprContext::Aggregation => Context::Aggregation,
    };
    let mut state = ExpressionConversionState::new(allow_threading, depth);
    let exprs = create_physical_expressions_from_irs(exprs, context, arena, schema, &mut state)?;
    let hold = |expr| PhysicalIoHelper { expr, has_window_function: false };
    Ok(CompiledExprs { exprs: exprs.into_iter().map(hold).collect(), has_windows: state.has_windows })
}

/// Whether all expressions of a plan node work row by row.
pub fn are_elementwise(exprs: &Vec<ExprIR>, arena: &Arena<AExpr>) -> (r: bool)
    requires
        all_stand(exprs@, *arena),
    ensures
        r == all_elementwise(exprs@, *arena),
{
    let mut i: usize = 0;
    while i < exprs.len()
        invariant
            i <= exprs@.len(),
            all_stand(exprs@, *arena),
            forall|j: int|
                #![trigger exprs@[j]]
                0 <= j < i ==> elementwise_exprs(*arena).contains(expr_node(exprs@[j])),
        decreases exprs@.len() - i,
    {
        if !is_elementwise(&exprs[i], arena) {
            return false;
        }
        i += 1;
    }
    true
}

/// Whether all compiled expressions are literals.
pub fn are_literal(exprs: &Vec<PhysicalIoHelper>) -> (r: bool)
    ensures
        r == all_literal(exprs@),
{
    let mut i: usize = 0;
    while i < exprs.len()
        invariant
            i <= exprs@.len(),
            forall|j: int| 0 <= j < i ==> #[trigger] is_literal_expr(exprs@[j]),
        decreases exprs@.len() - i,
    {
        if !is_literal(&exprs[i]) {
            return false;
        }
        i += 1;
    }
    true
}

/// The places of an expression arena under which an expression stands.
pub fn standing(arena: &Arena<AExpr>) -> (marks: Vec<bool>)
    ensures
        marks@.len() == expr_nodes(*arena).len(),
        forall|n: int|
            0 <= n < marks@.len() ==> #[trigger] marks@[n] == grounded(expr_edges(*arena), n as usize),
{
    let len: usize = expr_arena_len(arena);
    let mut edges: Vec<Vec<usize>> = Vec::new();
    let mut i: usize = 0;
    while i < len
        invariant
            i <= len,
            len == expr_nodes(*arena).len(),
            edges@.len() == i,
            forall|n: int|
                0 <= n < i ==> (#[trigger] edges@[n])@ == expr_nodes(*arena)[n].inputs,
        decreases len - i,
    {
        edges.push(inputs_of(arena, i));
        i += 1;
    }
    assert(edge_view(edges@) =~= expr_edges(*arena));
    ground(&edges)
}

/// Whether all expressions are plain and have fewer nodes than `depth`, where that is not
/// zero; `marks` says under which places an expression stands.
pub fn are_shallow(
    exprs: &Vec<ExprIR>,
    arena: &Arena<AExpr>,
    depth: u16,
    marks: &Vec<bool>,
) -> (r: bool)
    requires
        marks@.len() == expr_nodes(*arena).len(),
        forall|n: int|
            0 <= n < marks@.len() ==> #[trigger] marks@[n] == grounded(expr_edges(*arena), n as usize),
    ensures
        r == all_shallow(exprs@, *arena, depth),
{
    let mut i: usize = 0;
    while i < exprs.len()
        invariant
            i <= exprs@.len(),
            marks@.len() == expr_nodes(*arena).len(),
            forall|n: int|
                0 <= n < marks@.len() ==> #[trigger] marks@[n] == grounded(
                    expr_edges(*arena),
                    n as usize,
                ),
            forall|j: int| #![trigger exprs@[j]] 0 <= j < i ==> is_shallow(exprs@[j], *arena, depth),
        decreases exprs@.len() - i,
    {
        let node: usize = place_of(&exprs[i]);
        if node >= marks.len() || !marks[node] || calls_function(&exprs[i], arena) {
            assert(!is_shallow(exprs@[i as int], *arena, depth));
            return false;
        }
        if depth > 0 && count_nodes(&exprs[i], arena, depth as usize) >= depth as usize {
            assert(!is_shallow(exprs@[i as int], *arena, depth));
            return false;
        }
        i += 1;
    }
    true
}

/// Whether a categorical type occurs in a schema.
pub fn schema_has_categoricals(schema: &Arc<Schema<DataType>>) -> (r: bool)
    ensures
        r == has_categoricals(**schema),
{
    let dtypes = dtypes_of(schema);
    let mut i: usize = 0;
    while i < dtypes.len()
        invariant
            i <= dtypes@.len(),
            dtypes@ == schema_dtypes(**schema),
            forall|j: int| 0 <= j < i ==> !(#[trigger] is_categorical(dtypes@[j])),
        decreases dtypes@.len() - i,
    {
        if contains_categoricals(&dtypes[i]) {
            return true;
        }
        i += 1;
    }
    false
}

/// The expressions of a plan node as the user wrote them.
pub fn to_exprs(exprs: &Vec<ExprIR>, arena: &Arena<AExpr>) -> (r: Vec<Expr>)
    requires
        all_stand(exprs@, *arena),
    ensures
        r@ == exprs@.map_values(|e: ExprIR| expr_form(e, *arena)),
{
    let mut out: Vec<Expr> = Vec::new();
    let mut i: usize = 0;
    while i < exprs.len()
        invariant
            i <= exprs@.len(),
            all_stand(exprs@, *arena),
            out@.len() == i,
            forall|j: int| 0 <= j < i ==> #[trigger] out@[j] == expr_form(exprs@[j], *arena),
        decreases exprs@.len() - i,
    {
        out.push(to_expr(&exprs[i], arena));
        i += 1;
    }
    assert(out@ =~= exprs@.map_values(|e: ExprIR| expr_form(e, *arena)));
    out
}

} // verus!
