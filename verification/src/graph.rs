//! Nodes that name their inputs by place, and the trees that they stand for.
use vstd::prelude::*;

verus! {

/// A tree of places: a place and the trees of its inputs.
pub struct Shape {
    pub node: usize,
    pub inputs: Seq<Shape>,
}

/// Whether the tree is what stands under its place, where `edges` lists the inputs of
/// each place.
pub open spec fn shaped(edges: Seq<Seq<usize>>, shape: Shape) -> bool
    decreases shape,
{
    &&& shape.node < edges.len()
    &&& shape.inputs.len() == edges[shape.node as int].len()
    &&& forall|i: int|
        #![trigger shape.inputs[i]]
        0 <= i < shape.inputs.len() ==> shape.inputs[i].node == edges[shape.node as int][i]
            && shaped(edges, shape.inputs[i])
}

/// Whether a tree stands under a place: every input that can be reached is there, and no
/// place is its own input, however far down.
pub open spec fn grounded(edges: Seq<Seq<usize>>, node: usize) -> bool {
    exists|shape: Shape| shape.node == node && #[trigger] shaped(edges, shape)
}

/// The tree that stands under a place.
pub open spec fn shape_at(edges: Seq<Seq<usize>>, node: usize) -> Shape {
    choose|shape: Shape| shape.node == node && #[trigger] shaped(edges, shape)
}

/// The number of places of a tree, each counted as often as it occurs.
pub open spec fn size(shape: Shape) -> nat
    decreases shape,
{
    1 + sizes(shape.inputs)
}

/// The number of places of trees together.
pub open spec fn sizes(shapes: Seq<Shape>) -> nat
    decreases shapes,
{
    if shapes.len() == 0 {
        0
    } else {
        size(shapes[0]) + sizes(shapes.subrange(1, shapes.len() as int))
    }
}

/// Lists of inputs as mathematical sequences.
pub open spec fn edge_view(edges: Seq<Vec<usize>>) -> Seq<Seq<usize>> {
    edges.map_values(|inputs: Vec<usize>| inputs@)
}

/// The number of entries that are not set.
spec fn unset(marks: Seq<bool>) -> nat
    decreases marks.len(),
{
    if marks.len() == 0 {
        0
    } else {
        unset(marks.drop_last()) + if marks.last() {
            0nat
        } else {
            1nat
        }
    }
}

proof fn lemma_unset_falls(marks: Seq<bool>, i: int)
    requires
        0 <= i < marks.len(),
        !marks[i],
    ensures
        unset(marks.update(i, true)) + 1 == unset(marks),
    decreases marks.len(),
{
    let after = marks.update(i, true);
    if i == marks.len() - 1 {
        assert(after.drop_last() =~= marks.drop_last());
    } else {
        lemma_unset_falls(marks.drop_last(), i);
        assert(after.drop_last() =~= marks.drop_last().update(i, true));
    }
}

/// A place is grounded when its inputs are.
pub(crate) proof fn lemma_grounded_from_inputs(edges: Seq<Seq<usize>>, node: usize)
    requires
        node < edges.len(),
        forall|i: int|
            0 <= i < edges[node as int].len() ==> grounded(edges, #[trigger] edges[node as int][i]),
    ensures
        grounded(edges, node),
{
    let inputs = Seq::new(
        edges[node as int].len(),
        |i: int| shape_at(edges, edges[node as int][i]),
    );
    let shape = Shape { node, inputs };
    assert forall|i: int| #![trigger shape.inputs[i]] 0 <= i < shape.inputs.len() implies
        shape.inputs[i].node == edges[node as int][i] && shaped(edges, shape.inputs[i]) by {
        assert(grounded(edges, edges[node as int][i]));
    }
    assert(shaped(edges, shape));
}

/// Marks that no step can add to hold every grounded place.
proof fn lemma_marks_are_complete(edges: Seq<Seq<usize>>, marks: Seq<bool>, shape: Shape)
    requires
        shaped(edges, shape),
        marks.len() == edges.len(),
        forall|n: int|
            0 <= n < marks.len() && !(#[trigger] marks[n]) ==> exists|i: int|
                0 <= i < edges[n].len() && !(edges[n][i] < marks.len() && marks[#[trigger] edges[n][i] as int]),
    ensures
        marks[shape.node as int],
    decreases shape,
{
    if !marks[shape.node as int] {
        let n = shape.node as int;
        let i = choose|i: int|
            0 <= i < edges[n].len() && !(edges[n][i] < marks.len() && marks[#[trigger] edges[n][i] as int]);
        assert(shape.inputs[i].node == edges[n][i]);
        lemma_marks_are_complete(edges, marks, shape.inputs[i]);
    }
}

/// Whether all inputs are marked.
fn all_marked(inputs: &Vec<usize>, marks: &Vec<bool>) -> (r: bool)
    ensures
        r <==> forall|i: int|
            0 <= i < inputs@.len() ==> inputs@[i] < marks@.len() && marks@[#[trigger] inputs@[i] as int],
{
    let mut i: usize = 0;
    while i < inputs.len()
        invariant
            i <= inputs@.len(),
            forall|j: int|
                0 <= j < i ==> inputs@[j] < marks@.len() && marks@[#[trigger] inputs@[j] as int],
        decreases inputs@.len() - i,
    {
        let input: usize = inputs[i];
        if input >= marks.len() || !marks[input] {
            assert(!(inputs@[i as int] < marks@.len() && marks@[inputs@[i as int] as int]));
            return false;
        }
        i += 1;
    }
    true
}

/// Marks the places under which a tree stands.
///
/// A place is marked once all its inputs are, until no place is left to mark.
pub fn ground(edges: &Vec<Vec<usize>>) -> (marks: Vec<bool>)
    ensures
        marks@.len() == edges@.len(),
        forall|n: int|
            0 <= n < edges@.len() ==> #[trigger] marks@[n] == grounded(edge_view(edges@), n as usize),
{
    let ghost view = edge_view(edges@);
    let mut marks: Vec<bool> = Vec::new();
    let mut k: usize = 0;
    while k < edges.len()
        invariant
            k <= edges@.len(),
            marks@.len() == k,
            forall|n: int| 0 <= n < k ==> !(#[trigger] marks@[n]),
        decreases edges@.len() - k,
    {
        marks.push(false);
        k += 1;
    }
    let mut changed = true;
    while changed
        invariant
            view == edge_view(edges@),
            marks@.len() == edges@.len(),
            forall|n: int|
                0 <= n < marks@.len() && #[trigger] marks@[n] ==> grounded(view, n as usize),
            !changed ==> forall|n: int|
                0 <= n < marks@.len() && !(#[trigger] marks@[n]) ==> exists|i: int|
                    0 <= i < view[n].len() && !(view[n][i] < marks@.len()
                        && marks@[#[trigger] view[n][i] as int]),
        decreases
            unset(marks@),
            if changed {
                1int
            } else {
                0int
            },
    {
        let ghost old_marks = marks@;
        changed = false;
        let mut n: usize = 0;
        while n < edges.len()
            invariant
                n <= edges@.len(),
                view == edge_view(edges@),
                marks@.len() == edges@.len(),
                unset(marks@) <= unset(old_marks),
                changed ==> unset(marks@) < unset(old_marks),
                forall|m: int|
                    0 <= m < marks@.len() && #[trigger] marks@[m] ==> grounded(view, m as usize),
                !changed ==> forall|m: int|
                    0 <= m < n && !(#[trigger] marks@[m]) ==> exists|i: int|
                        0 <= i < view[m].len() && !(view[m][i] < marks@.len()
                            && marks@[#[trigger] view[m][i] as int]),
            decreases edges@.len() - n,
        {
            if !marks[n] && all_marked(&edges[n], &marks) {
                proof {
                    assert(view[n as int] == edges@[n as int]@);
                    lemma_grounded_from_inputs(view, n);
                    lemma_unset_falls(marks@, n as int);
                }
                marks.set(n, true);
                changed = true;
            }
            n += 1;
        }
    }
    proof {
        assert forall|n: int| 0 <= n < edges@.len() implies #[trigger] marks@[n] == grounded(
            view,
            n as usize,
        ) by {
            if grounded(view, n as usize) {
                lemma_marks_are_complete(view, marks@, shape_at(view, n as usize));
            }
        }
    }
    marks
}

} // verus!
