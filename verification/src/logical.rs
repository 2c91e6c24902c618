//! Logical plans: what the library reads of `polars_plan`'s plan nodes.
//!
//! A plan node is an opaque `IR`. Its kind, its inputs and its expressions are read as
//! plain values; what a plan only passes on to an executor stays inside the node.
use polars_core::prelude::{DataType, IdxSize};
use polars_plan::prelude::expr_ir::ExprIR;
use polars_plan::prelude::{Arena, ArenaLpIter, FileScan, JoinTypeOptionsIR, Node, ScanSources, SinkType, IR};
use polars_schema::Schema;
use std::path::PathBuf;
use std::sync::Arc;
use vstd::prelude::*;

verus! {

/// The file format of a scan.
#[derive(Clone, Copy, PartialEq, Eq, Structural)]
pub enum ScanFormat {
    Csv,
    Ipc,
    Parquet,
    NdJson,
    Anonymous,
}

/// The kind of a plan node, with the plain values that planning decides by.
#[derive(Clone, Copy)]
pub enum NodeKind {
    MemorySink,
    FileSink,
    Union { from_partitioned_ds: bool },
    HConcat,
    Slice { offset: i64, len: IdxSize },
    Filter,
    /// With the number of files, and the rows that are asked for.
    Scan { format: ScanFormat, sources: usize, slice: Option<(i64, usize)> },
    Select { should_broadcast: bool },
    DataFrameScan,
    Sort,
    Cache { id: usize, cache_hits: u32 },
    Distinct,
    /// With the number of keys, which come before the aggregations.
    GroupBy { keys: usize, has_apply: bool, dynamic: bool, rolling: bool },
    /// With the number of expressions of the left side, which come before the others.
    Join { left_on: usize, force_parallel: bool, allow_parallel: bool },
    HStack { should_broadcast: bool },
    MapFunction,
    ExtContext,
    SimpleProjection,
    /// What is left of a node that was taken out of its arena.
    Invalid,
}

/// The kind of a plan node.
pub uninterp spec fn ir_kind(ir: IR) -> NodeKind;

/// The places of a node's inputs in its arena. An external context has its contexts
/// first and its own input last.
pub uninterp spec fn ir_inputs(ir: IR) -> Seq<usize>;

/// The expressions of a node: of a group-by the keys and then the aggregations, of a
/// join those of the left side and then those of the right side.
pub uninterp spec fn ir_exprs(ir: IR) -> Seq<ExprIR>;

/// The file type of a file sink, as `Debug` prints it.
pub uninterp spec fn ir_file_type(ir: IR) -> Seq<char>;

/// The names of the columns that an in-memory scan is cut to, if it is.
pub uninterp spec fn ir_projection(ir: IR) -> Option<Seq<Seq<char>>>;

/// The schema of the rows that a file scan gives.
pub uninterp spec fn ir_scan_schema(ir: IR) -> Arc<Schema<DataType>>;

/// The predicate that is fused into a cross join, if there is one, and the schema of
/// the joined rows.
pub uninterp spec fn ir_cross_filter(ir: IR) -> Option<(ExprIR, Arc<Schema<DataType>>)>;

/// The paths that a file scan reads, by their numbers.
pub uninterp spec fn ir_paths(ir: IR) -> Seq<int>;

/// A number for a path: two paths carry the same number exactly where they are equal as
/// paths, component by component.
pub uninterp spec fn path_number(path: PathBuf) -> int;

/// The nodes that an arena holds.
pub uninterp spec fn arena_irs(arena: Arena<IR>) -> Seq<IR>;

/// The place that a node handle names.
pub uninterp spec fn node_index(node: Node) -> usize;

/// The schemas that polars may find for the rows of a plan. More than one schema can
/// only come from a plan whose functions do not always give the same one; no schema
/// means that polars cannot find one and panics.
pub uninterp spec fn schema_outcomes(plan: LogicalTree) -> Set<Arc<Schema<DataType>>>;

/// A plan as a tree: a node, its place in the arena, and the plans of its inputs, in the order
/// in which they are planned.
///
/// Planning stops at a sink. What lies below a sink, or comes after it, belongs to the plan
/// only where a node above asks for schemas or sources, and so looks beyond the sink.
pub struct LogicalTree {
    pub node: usize,
    pub ir: IR,
    /// Whether a node above asks for schemas or sources.
    pub asked: bool,
    pub inputs: Seq<LogicalTree>,
}

/// Whether a node of this kind is a sink.
pub open spec fn is_sink(kind: NodeKind) -> bool {
    kind is MemorySink || kind is FileSink
}

/// Whether planning of a node of this kind asks for the schemas of its inputs.
pub open spec fn needs_schemas(kind: NodeKind) -> bool {
    kind is Filter || kind is Select || kind is HStack || kind is Sort || kind is GroupBy
        || kind is Join
}

/// The inputs of a node in the order in which they are planned: an external context has its
/// own input, the last one, before its contexts.
pub open spec fn planned_inputs(ir: IR) -> Seq<usize> {
    let inputs = ir_inputs(ir);
    if ir_kind(ir) is ExtContext && inputs.len() > 0 {
        seq![inputs.last()] + inputs.drop_last()
    } else {
        inputs
    }
}

/// The inputs of a node that are looked at, unless planning stops before.
pub open spec fn looked_inputs(ir: IR, asked: bool) -> Seq<usize> {
    if is_sink(ir_kind(ir)) && !asked {
        Seq::empty()
    } else {
        planned_inputs(ir)
    }
}

/// Whether the inputs of a node of this kind are looked through to the end.
pub open spec fn looks_through(kind: NodeKind, asked: bool) -> bool {
    asked || needs_schemas(kind)
}

/// Whether planning stops at a sink of the plan.
pub open spec fn halts(plan: LogicalTree) -> bool
    decreases plan,
{
    is_sink(ir_kind(plan.ir)) || exists|i: int|
        #![trigger plan.inputs[i]]
        0 <= i < plan.inputs.len() && halts(plan.inputs[i])
}

/// Whether a plan has the inputs that belong to it: all, or those up to the first one at
/// which planning stops.
pub open spec fn has_inputs(plan: LogicalTree) -> bool {
    let all = looked_inputs(plan.ir, plan.asked).len();
    let count = plan.inputs.len();
    if looks_through(ir_kind(plan.ir), plan.asked) {
        count == all
    } else {
        &&& forall|i: int| #![trigger plan.inputs[i]] 0 <= i < count - 1 ==> !halts(plan.inputs[i])
        &&& count == all || (0 < count < all && halts(plan.inputs[count - 1]))
    }
}

/// Whether the tree is the plan that stands in the arena under the tree's place.
pub open spec fn represents(irs: Seq<IR>, plan: LogicalTree) -> bool
    decreases plan,
{
    &&& plan.node < irs.len()
    &&& irs[plan.node as int] == plan.ir
    &&& !(ir_kind(plan.ir) is Invalid)
    &&& has_inputs(plan)
    &&& shape_fits(ir_kind(plan.ir), ir_inputs(plan.ir).len(), ir_exprs(plan.ir).len())
    &&& forall|i: int|
        #![trigger plan.inputs[i]]
        0 <= i < plan.inputs.len() ==> plan.inputs[i].node == looked_inputs(
            plan.ir,
            plan.asked,
        )[i] && plan.inputs[i].asked == looks_through(ir_kind(plan.ir), plan.asked) && represents(
            irs,
            plan.inputs[i],
        )
}

/// Whether a plan stands under a place: every input that belongs to it is in the arena and
/// valid, and no node is its own input, however far down.
pub open spec fn is_plan(irs: Seq<IR>, node: usize, asked: bool) -> bool {
    exists|plan: LogicalTree|
        plan.node == node && plan.asked == asked && #[trigger] represents(irs, plan)
}

/// The plan that stands under a place.
pub open spec fn plan_at(irs: Seq<IR>, node: usize, asked: bool) -> LogicalTree {
    choose|plan: LogicalTree|
        plan.node == node && plan.asked == asked && #[trigger] represents(irs, plan)
}

/// Whether a place belongs to a plan.
pub open spec fn has_node(plan: LogicalTree, node: usize) -> bool
    decreases plan,
{
    plan.node == node || exists|i: int|
        #![trigger plan.inputs[i]]
        0 <= i < plan.inputs.len() && has_node(plan.inputs[i], node)
}

/// Whether a plan has each of its nodes once.
pub open spec fn distinct(plan: LogicalTree) -> bool
    decreases plan,
{
    &&& forall|i: int|
        #![trigger plan.inputs[i]]
        0 <= i < plan.inputs.len() ==> distinct(plan.inputs[i]) && !has_node(
            plan.inputs[i],
            plan.node,
        )
    &&& forall|i: int, j: int, node: usize|
        #![trigger has_node(plan.inputs[i], node), has_node(plan.inputs[j], node)]
        0 <= i < plan.inputs.len() && 0 <= j < plan.inputs.len() && has_node(plan.inputs[i], node)
            && has_node(plan.inputs[j], node) ==> i == j
}

/// The plan under a place that is to be planned.
pub open spec fn root_plan(irs: Seq<IR>, node: usize) -> LogicalTree {
    plan_at(irs, node, false)
}

/// Whether the plan under a place has each of its nodes once, so that its nodes can be
/// taken out of the arena one by one.
pub open spec fn is_tree(irs: Seq<IR>, node: usize) -> bool {
    is_plan(irs, node, false) && distinct(root_plan(irs, node))
}

/// A place has one plan only.
pub proof fn lemma_plan_unique(irs: Seq<IR>, a: LogicalTree, b: LogicalTree)
    requires
        represents(irs, a),
        represents(irs, b),
        a.node == b.node,
        a.asked == b.asked,
    ensures
        a == b,
    decreases a,
{
    assert forall|i: int|
        0 <= i < a.inputs.len() && i < b.inputs.len() implies a.inputs[i] == b.inputs[i] by {
        assert(a.inputs[i].node == looked_inputs(a.ir, a.asked)[i]);
        assert(b.inputs[i].node == looked_inputs(b.ir, b.asked)[i]);
        lemma_plan_unique(irs, a.inputs[i], b.inputs[i]);
    }
    if a.inputs.len() < b.inputs.len() {
        assert(b.inputs[a.inputs.len() - 1] == a.inputs[a.inputs.len() - 1]);
    }
    if b.inputs.len() < a.inputs.len() {
        assert(a.inputs[b.inputs.len() - 1] == b.inputs[b.inputs.len() - 1]);
    }
    assert(a.inputs =~= b.inputs);
}

/// A plan that stands under a place is the plan under that place.
pub(crate) proof fn lemma_plan_at(irs: Seq<IR>, plan: LogicalTree)
    requires
        represents(irs, plan),
    ensures
        is_plan(irs, plan.node, plan.asked),
        plan_at(irs, plan.node, plan.asked) == plan,
{
    lemma_plan_unique(irs, plan_at(irs, plan.node, plan.asked), plan);
}

/// A plan stays where it is while its own nodes stay.
pub(crate) proof fn lemma_plan_kept(irs: Seq<IR>, later: Seq<IR>, plan: LogicalTree)
    requires
        represents(irs, plan),
        later.len() == irs.len(),
        forall|node: usize| #[trigger] has_node(plan, node) ==> later[node as int] == irs[node as int],
    ensures
        represents(later, plan),
    decreases plan,
{
    assert(has_node(plan, plan.node));
    assert forall|i: int| #![trigger plan.inputs[i]] 0 <= i < plan.inputs.len() implies
        plan.inputs[i].node == looked_inputs(plan.ir, plan.asked)[i] && plan.inputs[i].asked
        == looks_through(ir_kind(plan.ir), plan.asked) && represents(later, plan.inputs[i]) by {
        assert forall|node: usize| #[trigger] has_node(plan.inputs[i], node) implies
            later[node as int] == irs[node as int] by {
            assert(has_node(plan, node));
        }
        lemma_plan_kept(irs, later, plan.inputs[i]);
    }
}

/// The nodes of a plan are in the arena.
pub(crate) proof fn lemma_nodes_in_arena(irs: Seq<IR>, plan: LogicalTree, node: usize)
    requires
        represents(irs, plan),
        has_node(plan, node),
    ensures
        node < irs.len(),
        !(ir_kind(irs[node as int]) is Invalid),
    decreases plan,
{
    if plan.node != node {
        let i = choose|i: int|
            #![trigger plan.inputs[i]]
            0 <= i < plan.inputs.len() && has_node(plan.inputs[i], node);
        lemma_nodes_in_arena(irs, plan.inputs[i], node);
    }
}

/// Whether a node of this kind with so many inputs and expressions has those that planning
/// reads.
pub open spec fn shape_fits(kind: NodeKind, inputs: nat, exprs: nat) -> bool {
    match kind {
        NodeKind::Union { .. } | NodeKind::HConcat => true,
        NodeKind::MemorySink | NodeKind::FileSink => true,
        NodeKind::Scan { .. } => inputs == 0 && exprs <= 1,
        NodeKind::DataFrameScan => inputs == 0,
        NodeKind::Filter => inputs == 1 && exprs == 1,
        NodeKind::GroupBy { keys, .. } => inputs == 1 && keys <= exprs,
        NodeKind::Join { left_on, .. } => inputs == 2 && left_on <= exprs,
        NodeKind::ExtContext => inputs >= 1,
        NodeKind::Invalid => false,
        _ => inputs == 1,
    }
}

/// Whether the kind carries plain values.
spec fn is_plain(kind: NodeKind) -> bool {
    kind is Union || kind is Slice || kind is Select || kind is HStack || kind is Cache
}

/// Whether the kind is a sink, a group-by or a join.
spec fn is_compound(kind: NodeKind) -> bool {
    kind is MemorySink || kind is FileSink || kind is GroupBy || kind is Join
}

/// Reads the variants of `IR` that carry plain values, field by field.
#[verifier::external_body]
fn plain_kind(ir: &IR) -> (r: Option<NodeKind>)
    ensures
        r is Some <==> is_plain(ir_kind(*ir)),
        r matches Some(kind) ==> kind == ir_kind(*ir),
{
    Some(match ir {
        IR::Union { options, .. } => NodeKind::Union { from_partitioned_ds: options.from_partitioned_ds },
        IR::Slice { offset, len, .. } => NodeKind::Slice { offset: *offset, len: *len },
        IR::Select { options, .. } => NodeKind::Select { should_broadcast: options.should_broadcast },
        IR::HStack { options, .. } => NodeKind::HStack { should_broadcast: options.should_broadcast },
        IR::Cache { id, cache_hits, .. } => NodeKind::Cache { id: *id, cache_hits: *cache_hits },
        _ => return None,
    })
}

/// Reads the sink, group-by and join variants of `IR`, field by field.
#[verifier::external_body]
fn compound_kind(ir: &IR) -> (r: Option<NodeKind>)
    ensures
        r is Some <==> is_compound(ir_kind(*ir)),
        r matches Some(kind) ==> kind == ir_kind(*ir),
{
    Some(match ir {
        IR::Sink { payload: SinkType::Memory, .. } => NodeKind::MemorySink,
        IR::Sink { payload: SinkType::File { .. }, .. } => NodeKind::FileSink,
        IR::GroupBy { keys, apply, options, .. } => NodeKind::GroupBy {
            keys: keys.len(), has_apply: apply.is_some(),
            dynamic: options.dynamic.is_some(), rolling: options.rolling.is_some(),
        },
        IR::Join { left_on, options, .. } => NodeKind::Join {
            left_on: left_on.len(), force_parallel: options.force_parallel,
            allow_parallel: options.allow_parallel,
        },
        _ => return None,
    })
}

/// Reads the file scan variant of `IR`, field by field.
#[verifier::external_body]
fn scan_kind(ir: &IR) -> (r: Option<NodeKind>)
    ensures
        r is Some <==> ir_kind(*ir) is Scan,
        r matches Some(kind) ==> kind == ir_kind(*ir),
{
    let IR::Scan { sources, scan_type, file_options, .. } = ir else { return None };
    let format = match scan_type {
        FileScan::Csv { .. } => ScanFormat::Csv,
        FileScan::Ipc { .. } => ScanFormat::Ipc,
        FileScan::Parquet { .. } => ScanFormat::Parquet,
        FileScan::NDJson { .. } => ScanFormat::NdJson,
        FileScan::Anonymous { .. } => ScanFormat::Anonymous,
    };
    Some(NodeKind::Scan { format, sources: sources.len(), slice: file_options.slice })
}

/// Tells the other variants of `IR` apart.
#[verifier::external_body]
fn bare_kind(ir: &IR) -> (r: NodeKind)
    requires
        !is_plain(ir_kind(*ir)),
        !is_compound(ir_kind(*ir)),
        !(ir_kind(*ir) is Scan),
    ensures
        r == ir_kind(*ir),
{
    match ir {
        IR::HConcat { .. } => NodeKind::HConcat,
        IR::Filter { .. } => NodeKind::Filter,
        IR::DataFrameScan { .. } => NodeKind::DataFrameScan,
        IR::Sort { .. } => NodeKind::Sort,
        IR::Distinct { .. } => NodeKind::Distinct,
        IR::MapFunction { .. } => NodeKind::MapFunction,
        IR::ExtContext { .. } => NodeKind::ExtContext,
        IR::SimpleProjection { .. } => NodeKind::SimpleProjection,
        IR::Invalid | IR::Union { .. } | IR::Slice { .. } | IR::Select { .. } | IR::HStack { .. }
        | IR::Cache { .. } | IR::Sink { .. } | IR::GroupBy { .. } | IR::Join { .. }
        | IR::Scan { .. } => NodeKind::Invalid,
    }
}

/// The kind of a plan node.
pub fn node_kind(ir: &IR) -> (r: NodeKind)
    ensures
        r == ir_kind(*ir),
{
    if let Some(kind) = plain_kind(ir) {
        return kind;
    }
    if let Some(kind) = compound_kind(ir) {
        return kind;
    }
    if let Some(kind) = scan_kind(ir) {
        return kind;
    }
    bare_kind(ir)
}

/// `IR::get_inputs_vec`: the inputs of a node, as many as its kind has.
#[verifier::external_body]
pub(crate) fn node_inputs(ir: &IR) -> (r: Vec<usize>)
    requires
        !(ir_kind(*ir) is Invalid),
    ensures
        r@ == ir_inputs(*ir),
        shape_fits(ir_kind(*ir), r@.len(), ir_exprs(*ir).len()),
{
    ir.get_inputs_vec().into_iter().map(|node| node.0).collect()
}

/// `IR::get_exprs`: the expressions of a node, as many as its kind has.
#[verifier::external_body]
pub(crate) fn node_exprs(ir: &IR) -> (r: Vec<ExprIR>)
    requires
        !(ir_kind(*ir) is Invalid),
    ensures
        r@ == ir_exprs(*ir),
        shape_fits(ir_kind(*ir), ir_inputs(*ir).len(), r@.len()),
{
    ir.get_exprs()
}

/// `Debug` of the file type of a file sink.
#[verifier::external_body]
pub(crate) fn sink_file_type(ir: &IR) -> (r: String)
    requires
        ir_kind(*ir) is FileSink,
    ensures
        r@ == ir_file_type(*ir),
{
    let IR::Sink { payload: SinkType::File { file_type, .. }, .. } = ir else { return String::new() };
    format!("{file_type:?}")
}

/// `Schema::iter_names_cloned` of the schema that an in-memory scan is cut to.
#[verifier::external_body]
pub(crate) fn scan_projection(ir: &IR) -> (r: Option<Vec<String>>)
    requires
        ir_kind(*ir) is DataFrameScan,
    ensures
        match r {
            Some(names) => ir_projection(*ir) == Some(names@.map_values(|name: String| name@)),
            None => ir_projection(*ir) is None,
        },
{
    let IR::DataFrameScan { output_schema: Some(schema), .. } = ir else { return None };
    Some(schema.iter_names_cloned().map(|name| name.to_string()).collect())
}

/// The schema of the rows that a file scan gives: that of its output where it has one,
/// else that of the file.
#[verifier::external_body]
pub(crate) fn scan_schema(ir: &IR) -> (r: Arc<Schema<DataType>>)
    requires
        ir_kind(*ir) is Scan,
    ensures
        r == ir_scan_schema(*ir),
{
    ir.schema(&Arena::new()).into_owned()
}

/// Reads the predicate that is fused into a cross join, and the schema of the join.
#[verifier::external_body]
pub(crate) fn cross_filter(ir: &IR) -> (r: Option<(ExprIR, Arc<Schema<DataType>>)>)
    requires
        ir_kind(*ir) is Join,
    ensures
        r == ir_cross_filter(*ir),
{
    let IR::Join { schema, options, .. } = ir else { return None };
    match &options.options {
        Some(JoinTypeOptionsIR::Cross { predicate }) => Some((predicate.clone(), schema.clone())),
        _ => None,
    }
}

/// The inputs of a node in the order in which they are planned.
pub(crate) fn inputs_in_order(ir: &IR) -> (r: Vec<usize>)
    requires
        !(ir_kind(*ir) is Invalid),
    ensures
        r@ == planned_inputs(*ir),
        shape_fits(ir_kind(*ir), ir_inputs(*ir).len(), ir_exprs(*ir).len()),
{
    let mut inputs = node_inputs(ir);
    if let NodeKind::ExtContext = node_kind(ir) {
        if let Some(last) = inputs.pop() {
            inputs.insert(0, last);
            assert(inputs@ =~= planned_inputs(*ir));
        }
    }
    inputs
}

/// Reads the paths of a file scan; open files and buffers have none.
#[verifier::external_body]
pub(crate) fn scan_paths(ir: &IR) -> (r: Vec<PathBuf>)
    requires
        ir_kind(*ir) is Scan,
    ensures
        r@.map_values(|path: PathBuf| path_number(path)) == ir_paths(*ir),
{
    let IR::Scan { sources: ScanSources::Paths(paths), .. } = ir else { return Vec::new() };
    paths.to_vec()
}

/// The place that a node handle names.
#[verifier::external_body]
pub(crate) fn index_of(node: Node) -> (r: usize)
    ensures
        r == node_index(node),
{
    node.0
}

/// `Arena::len`.
#[verifier::external_body]
pub(crate) fn arena_len(arena: &Arena<IR>) -> (r: usize)
    ensures
        r == arena_irs(*arena).len(),
{
    arena.len()
}

/// `Arena::get`.
#[verifier::external_body]
pub(crate) fn arena_get(arena: &Arena<IR>, node: usize) -> (r: &IR)
    requires
        node < arena_irs(*arena).len(),
    ensures
        *r == arena_irs(*arena)[node as int],
{
    arena.get(Node(node))
}

/// `Arena::take`: moves a node out of the arena and leaves an invalid one in its place.
#[verifier::external_body]
pub(crate) fn arena_take(arena: &mut Arena<IR>, node: usize) -> (r: IR)
    requires
        node < arena_irs(*old(arena)).len(),
    ensures
        r == arena_irs(*old(arena))[node as int],
        arena_irs(*final(arena)).len() == arena_irs(*old(arena)).len(),
        ir_kind(arena_irs(*final(arena))[node as int]) is Invalid,
        forall|n: int|
            0 <= n < arena_irs(*old(arena)).len() && n != node ==> #[trigger] arena_irs(
                *final(arena),
            )[n] == arena_irs(*old(arena))[n],
{
    arena.take(Node(node))
}

/// Whether the schema of a plan's rows is written in the plan: the nodes that pass on the
/// rows of their first input end in a node that has a schema of its own.
pub open spec fn carries_schema(plan: LogicalTree) -> bool
    decreases plan,
{
    match ir_kind(plan.ir) {
        NodeKind::Union { .. }
        | NodeKind::Cache { .. }
        | NodeKind::Sort
        | NodeKind::Filter
        | NodeKind::Distinct
        | NodeKind::MemorySink
        | NodeKind::FileSink
        | NodeKind::Slice { .. } => plan.inputs.len() > 0 && carries_schema(plan.inputs[0]),
        NodeKind::MapFunction | NodeKind::Invalid => false,
        _ => true,
    }
}

/// Whether polars finds a schema for the rows of a plan.
pub open spec fn finds_schema(plan: LogicalTree) -> bool {
    carries_schema(plan) || exists|schema: Arc<Schema<DataType>>| #[trigger]
        schema_outcomes(plan).contains(schema)
}

/// The schemas that may be found for the rows of a plan: one where it is written in the
/// plan.
pub open spec fn schema_answers(plan: LogicalTree) -> Set<Arc<Schema<DataType>>> {
    if carries_schema(plan) {
        schema_outcomes(plan).filter(
            |schema: Arc<Schema<DataType>>| schema == schema_outcomes(plan).choose(),
        )
    } else {
        schema_outcomes(plan)
    }
}

/// `IR::schema` of a node: one of the schemas that polars may find for its plan. It comes
/// back where the plan carries its schema; where a mapped function comes first, the
/// function's own code has a say.
#[verifier::external_body]
pub(crate) fn node_schema(arena: &Arena<IR>, node: usize) -> (r: Arc<Schema<DataType>>)
    requires
        is_plan(arena_irs(*arena), node, true),
        finds_schema(plan_at(arena_irs(*arena), node, true)),
    ensures
        schema_outcomes(plan_at(arena_irs(*arena), node, true)).contains(r),
        schema_answers(plan_at(arena_irs(*arena), node, true)).contains(r),
{
    arena.get(Node(node)).schema(arena).into_owned()
}

/// The iterator of `ArenaLpIter`: the places of the nodes of a plan.
#[verifier::external_body]
pub(crate) fn plan_nodes(arena: &Arena<IR>, node: usize) -> (r: Vec<usize>)
    requires
        is_plan(arena_irs(*arena), node, true),
    ensures
        forall|n: usize| #[trigger] r@.contains(n) <==> has_node(plan_at(arena_irs(*arena), node, true), n),
{
    arena.iter(Node(node)).map(|(place, _)| place.0).collect()
}

} // verus!
