//! What holds of places, their inputs, and the trees that stand under them.
use crate::graph::{
    grounded, lemma_grounded_from_inputs, shape_at, shaped, size, sizes, Shape,
};
use vstd::prelude::*;

verus! {

/// Whether places follow one another, each an input of the one before it.
pub open spec fn linked(edges: Seq<Seq<usize>>, chain: Seq<usize>) -> bool {
    &&& chain.len() > 0
    &&& forall|k: int| 0 <= k < chain.len() ==> #[trigger] chain[k] < edges.len()
    &&& forall|k: int, l: int|
        #![trigger chain[k], chain[l]]
        0 <= k && l == k + 1 && l < chain.len() ==> edges[chain[k] as int].contains(chain[l])
}

/// Whether a place can be reached from another one, or is that place.
pub open spec fn reaches(edges: Seq<Seq<usize>>, from: usize, to: usize) -> bool {
    exists|chain: Seq<usize>| #[trigger]
        linked(edges, chain) && chain[0] == from && chain[chain.len() - 1] == to
}

/// A place is reached from itself, from a place that has it as an input, and from nowhere
/// else but through the inputs.
pub proof fn law_reached_through_inputs(edges: Seq<Seq<usize>>, from: usize, to: usize)
    ensures
        reaches(edges, from, to) <==> from < edges.len() && (from == to || exists|i: int|
            0 <= i < edges[from as int].len() && #[trigger] reaches(edges, edges[from as int][i], to)),
{
    if reaches(edges, from, to) {
        let chain = choose|chain: Seq<usize>| #[trigger]
            linked(edges, chain) && chain[0] == from && chain[chain.len() - 1] == to;
        if chain.len() > 1 {
            let rest = chain.subrange(1, chain.len() as int);
            assert forall|k: int, l: int|
                #![trigger rest[k], rest[l]]
                0 <= k && l == k + 1 && l < rest.len() implies edges[rest[k] as int].contains(
                rest[l],
            ) by {
                assert(rest[k] == chain[k + 1] && rest[l] == chain[l + 1]);
            }
            assert forall|k: int| 0 <= k < rest.len() implies #[trigger] rest[k] < edges.len() by {
                assert(rest[k] == chain[k + 1]);
            }
            assert(linked(edges, rest));
            assert(edges[chain[0] as int].contains(chain[1]));
            let i = choose|i: int|
                0 <= i < edges[from as int].len() && edges[from as int][i] == chain[1];
            assert(reaches(edges, edges[from as int][i], to));
        }
    }
    if from < edges.len() && from == to {
        let chain = seq![from];
        assert(linked(edges, chain));
    }
    if from < edges.len() && exists|i: int|
        0 <= i < edges[from as int].len() && #[trigger] reaches(edges, edges[from as int][i], to) {
        let i = choose|i: int|
            0 <= i < edges[from as int].len() && #[trigger] reaches(edges, edges[from as int][i], to);
        let rest = choose|chain: Seq<usize>| #[trigger]
            linked(edges, chain) && chain[0] == edges[from as int][i] && chain[chain.len() - 1]
                == to;
        let chain = seq![from] + rest;
        assert forall|k: int, l: int|
            #![trigger chain[k], chain[l]]
            0 <= k && l == k + 1 && l < chain.len() implies edges[chain[k] as int].contains(
            chain[l],
        ) by {
            if k == 0 {
                assert(chain[l] == rest[0]);
            } else {
                assert(chain[k] == rest[k - 1] && chain[l] == rest[l - 1]);
            }
        }
        assert forall|k: int| 0 <= k < chain.len() implies #[trigger] chain[k] < edges.len() by {
            if k > 0 {
                assert(chain[k] == rest[k - 1]);
            }
        }
        assert(linked(edges, chain));
        assert(chain[chain.len() - 1] == rest[rest.len() - 1]);
    }
}

/// A place is grounded exactly where it is there and all its inputs are grounded.
pub proof fn law_grounded_through_inputs(edges: Seq<Seq<usize>>, node: usize)
    ensures
        grounded(edges, node) <==> node < edges.len() && forall|i: int|
            0 <= i < edges[node as int].len() ==> grounded(edges, #[trigger] edges[node as int][i]),
{
    if grounded(edges, node) {
        let shape = shape_at(edges, node);
        assert forall|i: int| 0 <= i < edges[node as int].len() implies grounded(
            edges,
            #[trigger] edges[node as int][i],
        ) by {
            let input = shape.inputs[i];
            assert(input.node == edges[node as int][i] && shaped(edges, input));
        }
    } else if node < edges.len() && forall|i: int|
        0 <= i < edges[node as int].len() ==> grounded(edges, #[trigger] edges[node as int][i]) {
        lemma_grounded_from_inputs(edges, node);
    }
}

proof fn lemma_sizes_bound(shapes: Seq<Shape>, i: int)
    requires
        0 <= i < shapes.len(),
    ensures
        size(shapes[i]) <= sizes(shapes),
    decreases shapes.len(),
{
    if i > 0 {
        let rest = shapes.subrange(1, shapes.len() as int);
        lemma_sizes_bound(rest, i - 1);
        assert(rest[i - 1] == shapes[i]);
    }
}

proof fn lemma_shapes_shrink(edges: Seq<Seq<usize>>, chain: Seq<usize>, shape: Shape) -> (last:
    Shape)
    requires
        shaped(edges, shape),
        linked(edges, chain),
        chain[0] == shape.node,
    ensures
        shaped(edges, last),
        last.node == chain[chain.len() - 1],
        size(last) <= size(shape),
        chain.len() > 1 ==> size(last) < size(shape),
    decreases chain.len(),
{
    if chain.len() == 1 {
        shape
    } else {
        let rest = chain.subrange(1, chain.len() as int);
        assert forall|k: int, l: int|
            #![trigger rest[k], rest[l]]
            0 <= k && l == k + 1 && l < rest.len() implies edges[rest[k] as int].contains(
            rest[l],
        ) by {
            assert(rest[k] == chain[k + 1] && rest[l] == chain[l + 1]);
        }
        assert forall|k: int| 0 <= k < rest.len() implies #[trigger] rest[k] < edges.len() by {
            assert(rest[k] == chain[k + 1]);
        }
        assert(edges[chain[0] as int].contains(chain[1]));
        let i = choose|i: int|
            0 <= i < edges[shape.node as int].len() && edges[shape.node as int][i] == chain[1];
        let input = shape.inputs[i];
        assert(input.node == chain[1] && shaped(edges, input));
        lemma_sizes_bound(shape.inputs, i);
        assert(size(shape) == 1 + sizes(shape.inputs));
        lemma_shapes_shrink(edges, rest, input)
    }
}

proof fn lemma_shape_unique(edges: Seq<Seq<usize>>, a: Shape, b: Shape)
    requires
        shaped(edges, a),
        shaped(edges, b),
        a.node == b.node,
    ensures
        a == b,
    decreases a,
{
    assert forall|i: int| 0 <= i < a.inputs.len() implies a.inputs[i] == b.inputs[i] by {
        assert(a.inputs[i].node == b.inputs[i].node);
        lemma_shape_unique(edges, a.inputs[i], b.inputs[i]);
    }
    assert(a.inputs =~= b.inputs);
}

/// No place below a grounded place can be reached from itself again.
pub proof fn law_grounded_places_have_no_cycles(edges: Seq<Seq<usize>>, chain: Seq<usize>)
    requires
        linked(edges, chain),
        chain.len() > 1,
        grounded(edges, chain[0]),
    ensures
        chain[chain.len() - 1] != chain[0],
{
    let shape = shape_at(edges, chain[0]);
    let last = lemma_shapes_shrink(edges, chain, shape);
    if last.node == shape.node {
        lemma_shape_unique(edges, last, shape);
    }
}

/// The size of a tree adds up: one for its root, and the sizes of its inputs.
pub proof fn law_sizes_add_up(node: usize, first: Seq<Shape>, then: Seq<Shape>, one: Shape)
    ensures
        size((Shape { node, inputs: Seq::empty() })) == 1,
        size((Shape { node, inputs: seq![one] })) == 1 + size(one),
        size((Shape { node, inputs: first + then })) + 1 == size((Shape { node, inputs: first }))
            + size((Shape { node, inputs: then })),
    decreases first.len(),
{
    assert(size(Shape { node, inputs: Seq::empty() }) == 1 + sizes(Seq::empty()));
    let single = seq![one];
    assert(size(Shape { node, inputs: single }) == 1 + sizes(single));
    assert(sizes(single.subrange(1, 1)) == 0);
    assert(single[0] == one);
    assert(size(Shape { node, inputs: first }) == 1 + sizes(first));
    assert(size(Shape { node, inputs: then }) == 1 + sizes(then));
    assert(size(Shape { node, inputs: first + then }) == 1 + sizes(first + then));
    if first.len() == 0 {
        assert(first + then =~= then);
    } else {
        let rest = first.subrange(1, first.len() as int);
        law_sizes_add_up(node, rest, then, one);
        assert(size(Shape { node, inputs: rest }) == 1 + sizes(rest));
        assert(size(Shape { node, inputs: rest + then }) == 1 + sizes(rest + then));
        assert((first + then).subrange(1, (first + then).len() as int) =~= rest + then);
        assert((first + then)[0] == first[0]);
    }
}

} // verus!
