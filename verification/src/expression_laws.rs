//! What holds of expressions as trees of nodes.
use crate::expression::{
    all_shallow, expr_edges, expr_node, expr_nodes, expr_shape, has_function, has_literal_series,
    is_shallow, stands, ExprNode,
};
use crate::graph::{grounded, shaped, size, sizes, Shape};
use crate::graph_laws::{law_grounded_through_inputs, law_reached_through_inputs, reaches};
use polars_plan::prelude::expr_ir::ExprIR;
use polars_plan::prelude::{AExpr, Arena};
use vstd::prelude::*;

verus! {

/// An expression is a single node exactly where its root has no input, and such an expression
/// holds a literal series, or calls a function, exactly where its root does.
pub proof fn law_single_nodes(expr: ExprIR, arena: Arena<AExpr>)
    requires
        stands(expr, arena),
    ensures
        expr_node(expr) < expr_nodes(arena).len(),
        size(expr_shape(expr, arena)) >= 1,
        size(expr_shape(expr, arena)) <= 1 <==> expr_nodes(
            arena,
        )[expr_node(expr) as int].inputs.len() == 0,
        expr_nodes(arena)[expr_node(expr) as int].inputs.len() == 0 ==> has_literal_series(
            expr_nodes(arena),
            expr_shape(expr, arena),
        ) == expr_nodes(arena)[expr_node(expr) as int].literal_series && has_function(
            expr_nodes(arena),
            expr_shape(expr, arena),
        ) == expr_nodes(arena)[expr_node(expr) as int].function,
{
    let shape = expr_shape(expr, arena);
    assert(shaped(expr_edges(arena), shape));
    assert(shape.inputs.len() == expr_nodes(arena)[expr_node(expr) as int].inputs.len());
    assert(size(shape) == 1 + sizes(shape.inputs));
    if shape.inputs.len() > 0 {
        assert(size(shape.inputs[0]) == 1 + sizes(shape.inputs[0].inputs));
    }
}

/// The inputs of each node of an expression arena.
spec fn inputs_of_nodes(nodes: Seq<ExprNode>) -> Seq<Seq<usize>> {
    Seq::new(nodes.len(), |n: int| nodes[n].inputs)
}

proof fn lemma_flags_are_reached(nodes: Seq<ExprNode>, shape: Shape)
    requires
        shaped(inputs_of_nodes(nodes), shape),
    ensures
        has_literal_series(nodes, shape) <==> exists|n: usize| #[trigger]
            reaches(inputs_of_nodes(nodes), shape.node, n) && nodes[n as int].literal_series,
        has_function(nodes, shape) <==> exists|n: usize| #[trigger]
            reaches(inputs_of_nodes(nodes), shape.node, n) && nodes[n as int].function,
    decreases shape,
{
    let edges = inputs_of_nodes(nodes);
    assert forall|i: int| #![trigger shape.inputs[i]] 0 <= i < shape.inputs.len() implies (
    has_literal_series(nodes, shape.inputs[i]) <==> exists|n: usize| #[trigger]
        reaches(edges, edges[shape.node as int][i], n) && nodes[n as int].literal_series) && (
    has_function(nodes, shape.inputs[i]) <==> exists|n: usize| #[trigger]
        reaches(edges, edges[shape.node as int][i], n) && nodes[n as int].function) by {
        lemma_flags_are_reached(nodes, shape.inputs[i]);
    }
    law_reached_through_inputs(edges, shape.node, shape.node);
    assert forall|n: usize, i: int|
        0 <= i < shape.inputs.len() && #[trigger] reaches(
            edges,
            edges[shape.node as int][i],
            n,
        ) implies reaches(edges, shape.node, n) by {
        law_reached_through_inputs(edges, shape.node, n);
    }
    if has_literal_series(nodes, shape) && !nodes[shape.node as int].literal_series {
        let i = choose|i: int|
            #![trigger shape.inputs[i]]
            0 <= i < shape.inputs.len() && has_literal_series(nodes, shape.inputs[i]);
        let n = choose|n: usize| #[trigger]
            reaches(edges, edges[shape.node as int][i], n) && nodes[n as int].literal_series;
        assert(reaches(edges, shape.node, n));
    }
    if has_function(nodes, shape) && !nodes[shape.node as int].function {
        let i = choose|i: int|
            #![trigger shape.inputs[i]]
            0 <= i < shape.inputs.len() && has_function(nodes, shape.inputs[i]);
        let n = choose|n: usize| #[trigger]
            reaches(edges, edges[shape.node as int][i], n) && nodes[n as int].function;
        assert(reaches(edges, shape.node, n));
    }
    assert forall|n: usize| #[trigger] reaches(edges, shape.node, n) implies (
    nodes[n as int].literal_series ==> has_literal_series(nodes, shape)) && (
    nodes[n as int].function ==> has_function(nodes, shape)) by {
        law_reached_through_inputs(edges, shape.node, n);
        if n != shape.node {
            let i = choose|i: int|
                0 <= i < edges[shape.node as int].len() && #[trigger] reaches(
                    edges,
                    edges[shape.node as int][i],
                    n,
                );
            let _ = shape.inputs[i];
        }
    }
}

/// An expression holds a literal series, or calls a function, exactly where some node that
/// can be reached from its root does.
pub proof fn law_flags_of_expressions(expr: ExprIR, arena: Arena<AExpr>)
    requires
        stands(expr, arena),
    ensures
        ({
            let nodes = expr_nodes(arena);
            let edges = Seq::new(nodes.len(), |n: int| nodes[n].inputs);
            &&& has_literal_series(nodes, expr_shape(expr, arena)) <==> exists|n: usize| #[trigger]
                reaches(edges, expr_node(expr), n) && nodes[n as int].literal_series
            &&& has_function(nodes, expr_shape(expr, arena)) <==> exists|n: usize| #[trigger]
                reaches(edges, expr_node(expr), n) && nodes[n as int].function
        }),
{
    let nodes = expr_nodes(arena);
    assert(expr_edges(arena) =~= inputs_of_nodes(nodes));
    assert(Seq::new(nodes.len(), |n: int| nodes[n].inputs) =~= inputs_of_nodes(nodes));
    lemma_flags_are_reached(nodes, expr_shape(expr, arena));
}

/// An expression stands in the arena exactly where its root is there and each of its inputs
/// stands there.
pub proof fn law_standing_expressions(expr: ExprIR, arena: Arena<AExpr>)
    ensures
        stands(expr, arena) <==> expr_node(expr) < expr_nodes(arena).len() && forall|i: int|
            0 <= i < expr_nodes(arena)[expr_node(expr) as int].inputs.len() ==> grounded(
                Seq::new(expr_nodes(arena).len(), |n: int| expr_nodes(arena)[n].inputs),
                #[trigger] expr_nodes(arena)[expr_node(expr) as int].inputs[i],
            ),
{
    assert(expr_edges(arena) =~= Seq::new(
        expr_nodes(arena).len(),
        |n: int| expr_nodes(arena)[n].inputs,
    ));
    law_grounded_through_inputs(expr_edges(arena), expr_node(expr));
}

/// Expressions are plain and shallow exactly where each of them stands in the arena, no node
/// that can be reached from its root calls a function, and it has fewer nodes than the limit
/// of depth, unless there is no limit.
pub proof fn law_shallow_expressions(exprs: Seq<ExprIR>, arena: Arena<AExpr>, depth: u16)
    ensures
        ({
            let nodes = expr_nodes(arena);
            let edges = Seq::new(nodes.len(), |n: int| nodes[n].inputs);
            all_shallow(exprs, arena, depth) <==> forall|i: int|
                #![trigger exprs[i]]
                0 <= i < exprs.len() ==> stands(exprs[i], arena) && (forall|n: usize| #[trigger]
                    reaches(edges, expr_node(exprs[i]), n) ==> !nodes[n as int].function) && (depth
                    == 0 || size(expr_shape(exprs[i], arena)) < depth)
        }),
{
    let nodes = expr_nodes(arena);
    let edges = Seq::new(nodes.len(), |n: int| nodes[n].inputs);
    assert forall|i: int|
        #![trigger exprs[i]]
        0 <= i < exprs.len() && stands(exprs[i], arena) implies (has_function(
        nodes,
        expr_shape(exprs[i], arena),
    ) <==> exists|n: usize| #[trigger]
        reaches(edges, expr_node(exprs[i]), n) && nodes[n as int].function) by {
        law_flags_of_expressions(exprs[i], arena);
    }
    assert forall|i: int| #![trigger exprs[i]] 0 <= i < exprs.len() implies (is_shallow(
        exprs[i],
        arena,
        depth,
    ) <==> stands(exprs[i], arena) && (forall|n: usize| #[trigger]
        reaches(edges, expr_node(exprs[i]), n) ==> !nodes[n as int].function) && (depth == 0
        || size(expr_shape(exprs[i], arena)) < depth)) by {}
    if all_shallow(exprs, arena, depth) {
        assert forall|i: int| #![trigger exprs[i]] 0 <= i < exprs.len() implies is_shallow(
            exprs[i],
            arena,
            depth,
        ) by {}
    }
}

} // verus!
