//! Where the rows of a plan come from.
use crate::logical::{
    arena_get, arena_irs, has_node, ir_kind, ir_paths, lemma_nodes_in_arena, lemma_plan_at,
    node_kind, path_number, plan_nodes, represents, scan_paths, LogicalTree, NodeKind,
};
use polars_core::prelude::{InitHashMaps, PlHashSet};
use polars_plan::prelude::{Arena, IR};
use std::path::PathBuf;
use vstd::prelude::*;

verus! {

/// Whether a node of this kind is a union that reads a partitioned dataset.
pub open spec fn is_partitioned_kind(kind: NodeKind) -> bool {
    kind matches NodeKind::Union { from_partitioned_ds } && from_partitioned_ds
}

/// Whether a union that reads a partitioned dataset occurs in a plan.
pub open spec fn reads_partitioned(plan: LogicalTree) -> bool
    decreases plan,
{
    is_partitioned_kind(ir_kind(plan.ir)) || exists|i: int|
        #![trigger plan.inputs[i]]
        0 <= i < plan.inputs.len() && reads_partitioned(plan.inputs[i])
}

/// Whether a node scans a file.
pub open spec fn scans_path(ir: IR, path: int) -> bool {
    ir_kind(ir) is Scan && ir_paths(ir).contains(path)
}

/// Whether a plan reads a file.
pub open spec fn reads_path(plan: LogicalTree, path: int) -> bool
    decreases plan,
{
    scans_path(plan.ir, path) || exists|i: int|
        #![trigger plan.inputs[i]]
        0 <= i < plan.inputs.len() && reads_path(plan.inputs[i], path)
}

/// Whether two plans read a file in common.
pub open spec fn share_source(left: LogicalTree, right: LogicalTree) -> bool {
    exists|path: int| #[trigger] reads_path(left, path) && reads_path(right, path)
}

pub(crate) proof fn lemma_partitioned_node(irs: Seq<IR>, plan: LogicalTree)
    requires
        represents(irs, plan),
    ensures
        reads_partitioned(plan) <==> exists|n: usize| #[trigger]
            has_node(plan, n) && is_partitioned_kind(ir_kind(irs[n as int])),
    decreases plan,
{
    if reads_partitioned(plan) {
        if is_partitioned_kind(ir_kind(plan.ir)) {
            assert(has_node(plan, plan.node));
        } else {
            let i = choose|i: int|
                #![trigger plan.inputs[i]]
                0 <= i < plan.inputs.len() && reads_partitioned(plan.inputs[i]);
            lemma_partitioned_node(irs, plan.inputs[i]);
            let n = choose|n: usize| #[trigger]
                has_node(plan.inputs[i], n) && is_partitioned_kind(ir_kind(irs[n as int]));
            assert(has_node(plan, n));
        }
    }
    if exists|n: usize| #[trigger]
        has_node(plan, n) && is_partitioned_kind(ir_kind(irs[n as int])) {
        let n = choose|n: usize| #[trigger]
            has_node(plan, n) && is_partitioned_kind(ir_kind(irs[n as int]));
        if n != plan.node {
            let i = choose|i: int|
                #![trigger plan.inputs[i]]
                0 <= i < plan.inputs.len() && has_node(plan.inputs[i], n);
            lemma_partitioned_node(irs, plan.inputs[i]);
        }
    }
}

pub(crate) proof fn lemma_path_node(irs: Seq<IR>, plan: LogicalTree, path: int)
    requires
        represents(irs, plan),
    ensures
        reads_path(plan, path) <==> exists|n: usize| #[trigger]
            has_node(plan, n) && scans_path(irs[n as int], path),
    decreases plan,
{
    if reads_path(plan, path) {
        if scans_path(plan.ir, path) {
            assert(has_node(plan, plan.node));
        } else {
            let i = choose|i: int|
                #![trigger plan.inputs[i]]
                0 <= i < plan.inputs.len() && reads_path(plan.inputs[i], path);
            lemma_path_node(irs, plan.inputs[i], path);
            let n = choose|n: usize| #[trigger]
                has_node(plan.inputs[i], n) && scans_path(irs[n as int], path);
            assert(has_node(plan, n));
        }
    }
    if exists|n: usize| #[trigger] has_node(plan, n) && scans_path(irs[n as int], path) {
        let n = choose|n: usize| #[trigger] has_node(plan, n) && scans_path(irs[n as int], path);
        if n != plan.node {
            let i = choose|i: int|
                #![trigger plan.inputs[i]]
                0 <= i < plan.inputs.len() && has_node(plan.inputs[i], n);
            lemma_path_node(irs, plan.inputs[i], path);
        }
    }
}

/// A set of paths. Its hasher is seeded anew in each process, which nothing here can see.
#[verifier::external_body]
pub struct PathSet {
    set: PlHashSet<PathBuf>,
}

/// The numbers of the paths that a set holds.
pub uninterp spec fn set_paths(set: PathSet) -> Set<int>;

/// `PlHashSet::new`: a set that holds nothing.
#[verifier::external_body]
fn no_paths() -> (r: PathSet)
    ensures
        set_paths(r) == Set::<int>::empty(),
{
    PathSet { set: PlHashSet::new() }
}

/// `HashSet::insert`: the set then holds the path, and what it held before.
#[verifier::external_body]
fn add_path(paths: &mut PathSet, path: PathBuf)
    ensures
        set_paths(*final(paths)) == set_paths(*old(paths)).insert(path_number(path)),
{
    paths.set.insert(path);
}

/// `HashSet::intersection`, and whether it hands out anything: whether a path is in both
/// sets.
#[verifier::external_body]
fn have_common_path(left: &PathSet, right: &PathSet) -> (r: bool)
    ensures
        r == !set_paths(*left).disjoint(set_paths(*right)),
{
    left.set.intersection(&right.set).next().is_some()
}

/// Whether a union that reads a partitioned dataset occurs in a plan.
pub(crate) fn finds_partitioned(
    arena: &Arena<IR>,
    root: usize,
    Ghost(plan): Ghost<LogicalTree>,
) -> (r: bool)
    requires
        represents(arena_irs(*arena), plan),
        plan.node == root,
        plan.asked,
    ensures
        r == reads_partitioned(plan),
{
    let ghost irs = arena_irs(*arena);
    proof {
        lemma_plan_at(irs, plan);
        lemma_partitioned_node(irs, plan);
    }
    let nodes = plan_nodes(arena, root);
    let mut k: usize = 0;
    while k < nodes.len()
        invariant
            k <= nodes@.len(),
            irs == arena_irs(*arena),
            represents(irs, plan),
            forall|n: usize| #[trigger] nodes@.contains(n) <==> has_node(plan, n),
            reads_partitioned(plan) <==> exists|n: usize| #[trigger]
                has_node(plan, n) && is_partitioned_kind(ir_kind(irs[n as int])),
            forall|j: int|
                0 <= j < k ==> !is_partitioned_kind(ir_kind(irs[#[trigger] nodes@[j] as int])),
        decreases nodes@.len() - k,
    {
        let node: usize = nodes[k];
        proof {
            assert(nodes@.contains(node));
            lemma_nodes_in_arena(irs, plan, node);
        }
        if let NodeKind::Union { from_partitioned_ds: true } = node_kind(arena_get(arena, node)) {
            return true;
        }
        k += 1;
    }
    proof {
        assert forall|n: usize| #[trigger] has_node(plan, n) implies !is_partitioned_kind(
            ir_kind(irs[n as int]),
        ) by {
            assert(nodes@.contains(n));
        }
    }
    false
}

/// Adds the files that a plan reads to a set.
pub(crate) fn agg_source_paths(
    root: usize,
    acc_paths: &mut PathSet,
    arena: &Arena<IR>,
    Ghost(plan): Ghost<LogicalTree>,
)
    requires
        represents(arena_irs(*arena), plan),
        plan.node == root,
        plan.asked,
    ensures
        forall|path: int| #[trigger]
            set_paths(*final(acc_paths)).contains(path) <==> set_paths(*old(acc_paths)).contains(
                path,
            ) || reads_path(plan, path),
{
    let ghost irs = arena_irs(*arena);
    let ghost before = set_paths(*acc_paths);
    proof {
        lemma_plan_at(irs, plan);
    }
    let nodes = plan_nodes(arena, root);
    let mut k: usize = 0;
    while k < nodes.len()
        invariant
            k <= nodes@.len(),
            irs == arena_irs(*arena),
            represents(irs, plan),
            forall|n: usize| #[trigger] nodes@.contains(n) <==> has_node(plan, n),
            forall|path: int| #[trigger]
                set_paths(*acc_paths).contains(path) <==> before.contains(path) || exists|j: int|
                    0 <= j < k && scans_path(irs[#[trigger] nodes@[j] as int], path),
        decreases nodes@.len() - k,
    {
        let node: usize = nodes[k];
        proof {
            assert(nodes@.contains(node));
            lemma_nodes_in_arena(irs, plan, node);
        }
        let ir = arena_get(arena, node);
        let ghost so_far = set_paths(*acc_paths);
        if let NodeKind::Scan { .. } = node_kind(ir) {
            add_paths(acc_paths, scan_paths(ir));
        }
        proof {
            assert forall|path: int| #[trigger]
                set_paths(*acc_paths).contains(path) <==> before.contains(path) || exists|j: int|
                0 <= j < k + 1 && scans_path(irs[#[trigger] nodes@[j] as int], path) by {
                assert(set_paths(*acc_paths).contains(path) <==> so_far.contains(path)
                    || scans_path(irs[nodes@[k as int] as int], path));
            }
        }
        k += 1;
    }
    proof {
        assert forall|path: int| #[trigger]
            set_paths(*acc_paths).contains(path) <==> before.contains(path) || reads_path(
            plan,
            path,
        ) by {
            lemma_path_node(irs, plan, path);
            if reads_path(plan, path) {
                let n = choose|n: usize| #[trigger]
                    has_node(plan, n) && scans_path(irs[n as int], path);
                assert(nodes@.contains(n));
                let j = choose|j: int| 0 <= j < nodes@.len() && nodes@[j] == n;
                assert(scans_path(irs[nodes@[j] as int], path));
            }
            if exists|j: int| 0 <= j < k && scans_path(irs[#[trigger] nodes@[j] as int], path) {
                let j = choose|j: int|
                    0 <= j < k && scans_path(irs[#[trigger] nodes@[j] as int], path);
                assert(nodes@.contains(nodes@[j]));
                assert(has_node(plan, nodes@[j]));
            }
        }
    }
}

/// Adds the paths of a list to a set.
fn add_paths(acc_paths: &mut PathSet, paths: Vec<PathBuf>)
    ensures
        forall|path: int| #[trigger]
            set_paths(*final(acc_paths)).contains(path) <==> set_paths(*old(acc_paths)).contains(
                path,
            ) || paths@.map_values(|path: PathBuf| path_number(path)).contains(path),
{
    let ghost before = set_paths(*acc_paths);
    let ghost all = paths@;
    let ghost numbers = all.map_values(|path: PathBuf| path_number(path));
    let mut rest = paths;
    while rest.len() > 0
        invariant
            rest@.len() <= all.len(),
            rest@ == all.subrange(0, rest@.len() as int),
            numbers == all.map_values(|path: PathBuf| path_number(path)),
            forall|path: int| #[trigger]
                set_paths(*acc_paths).contains(path) <==> before.contains(path) || exists|j: int|
                    rest@.len() <= j < all.len() && #[trigger] numbers[j] == path,
        decreases rest@.len(),
    {
        let ghost so_far = set_paths(*acc_paths);
        if let Some(path) = rest.pop() {
            let ghost k = rest@.len() as int;
            assert(path == all[k]);
            add_path(acc_paths, path);
            proof {
                assert forall|path: int| #[trigger]
                    set_paths(*acc_paths).contains(path) <==> before.contains(path) || exists|
                    j: int,
                |
                    k <= j < all.len() && #[trigger] numbers[j] == path by {
                    assert(set_paths(*acc_paths).contains(path) <==> so_far.contains(path)
                        || numbers[k] == path);
                }
            }
        }
    }
    proof {
        assert forall|path: int| #[trigger]
            set_paths(*acc_paths).contains(path) <==> before.contains(path) || numbers.contains(
            path,
        ) by {
            if numbers.contains(path) {
                let j = choose|j: int| 0 <= j < numbers.len() && numbers[j] == path;
                assert(numbers[j] == path);
            }
        }
    }
}

/// Whether two plans read a file in common.
pub(crate) fn shares_source(
    arena: &Arena<IR>,
    left: usize,
    right: usize,
    Ghost(left_plan): Ghost<LogicalTree>,
    Ghost(right_plan): Ghost<LogicalTree>,
) -> (r: bool)
    requires
        represents(arena_irs(*arena), left_plan),
        represents(arena_irs(*arena), right_plan),
        left_plan.node == left,
        right_plan.node == right,
        left_plan.asked,
        right_plan.asked,
    ensures
        r == share_source(left_plan, right_plan),
{
    let mut sources_left = no_paths();
    agg_source_paths(left, &mut sources_left, arena, Ghost(left_plan));
    let mut sources_right = no_paths();
    agg_source_paths(right, &mut sources_right, arena, Ghost(right_plan));
    let shared = have_common_path(&sources_left, &sources_right);
    proof {
        if shared {
            let path = choose|path: int| #[trigger]
                set_paths(sources_left).contains(path) && set_paths(sources_right).contains(path);
            assert(reads_path(left_plan, path) && reads_path(right_plan, path));
        }
        if share_source(left_plan, right_plan) {
            let path = choose|path: int| #[trigger]
                reads_path(left_plan, path) && reads_path(right_plan, path);
            assert(set_paths(sources_left).contains(path));
            assert(set_paths(sources_right).contains(path));
        }
    }
    shared
}

} // verus!
