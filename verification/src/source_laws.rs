//! Where the rows of a plan come from, said of the nodes of the plan.
use crate::logical::{has_node, ir_kind, ir_paths, represents, LogicalTree, NodeKind};
use crate::sources::{
    lemma_partitioned_node, lemma_path_node, reads_partitioned, reads_path, share_source,
};
use polars_plan::prelude::IR;
use vstd::prelude::*;

verus! {

/// Two plans share a source exactly where a scan of the one, of whatever format, has a file
/// in common with a scan of the other.
pub proof fn law_shared_sources(irs: Seq<IR>, left: LogicalTree, right: LogicalTree)
    requires
        represents(irs, left),
        represents(irs, right),
    ensures
        share_source(left, right) <==> exists|m: usize, n: usize, path: int|
            #![trigger has_node(left, m), has_node(right, n), ir_paths(irs[m as int]).contains(path)]
            has_node(left, m) && ir_kind(irs[m as int]) is Scan && ir_paths(
                irs[m as int],
            ).contains(path) && has_node(right, n) && ir_kind(irs[n as int]) is Scan && ir_paths(
                irs[n as int],
            ).contains(path),
{
    if share_source(left, right) {
        let path = choose|path: int| #[trigger] reads_path(left, path) && reads_path(right, path);
        lemma_path_node(irs, left, path);
        lemma_path_node(irs, right, path);
        let m = choose|m: usize| #[trigger]
            has_node(left, m) && ir_kind(irs[m as int]) is Scan && ir_paths(
                irs[m as int],
            ).contains(path);
        let n = choose|n: usize| #[trigger]
            has_node(right, n) && ir_kind(irs[n as int]) is Scan && ir_paths(
                irs[n as int],
            ).contains(path);
        assert(has_node(left, m) && has_node(right, n) && ir_paths(irs[m as int]).contains(path));
    }
    if exists|m: usize, n: usize, path: int|
        #![trigger has_node(left, m), has_node(right, n), ir_paths(irs[m as int]).contains(path)]
        has_node(left, m) && ir_kind(irs[m as int]) is Scan && ir_paths(irs[m as int]).contains(
            path,
        ) && has_node(right, n) && ir_kind(irs[n as int]) is Scan && ir_paths(
            irs[n as int],
        ).contains(path) {
        let (m, n, path) = choose|m: usize, n: usize, path: int|
            #![trigger has_node(left, m), has_node(right, n), ir_paths(irs[m as int]).contains(path)]
            has_node(left, m) && ir_kind(irs[m as int]) is Scan && ir_paths(
                irs[m as int],
            ).contains(path) && has_node(right, n) && ir_kind(irs[n as int]) is Scan && ir_paths(
                irs[n as int],
            ).contains(path);
        lemma_path_node(irs, left, path);
        lemma_path_node(irs, right, path);
        assert(reads_path(left, path) && reads_path(right, path));
    }
}

/// A plan reads a partitioned dataset exactly where one of its nodes is a union that says so.
pub proof fn law_partitioned_datasets(irs: Seq<IR>, plan: LogicalTree)
    requires
        represents(irs, plan),
    ensures
        reads_partitioned(plan) <==> exists|n: usize| #[trigger]
            has_node(plan, n) && ir_kind(irs[n as int]) == (NodeKind::Union {
                from_partitioned_ds: true,
            }),
{
    lemma_partitioned_node(irs, plan);
}

} // verus!
