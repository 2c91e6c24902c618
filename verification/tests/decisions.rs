use polars_core::prelude::{Column, DataFrame, NamedFrom, PlSmallStr, Series};
use polars_engine::checks::{plan_is_tree, plan_is_vouched};
use polars_engine::decisions::{
    filter_is_streamable, python_predicate, scan_reader, scan_slice, PythonPredicate, Reader,
};
use polars_engine::graph::ground;
use polars_engine::logical::ScanFormat;
use polars_plan::prelude::{AExpr, Arena, Node, SinkType, UnionOptions, IR};
use std::sync::Arc;

#[test]
fn a_filter_streams_unless_categoricals_lack_the_cache() {
    assert!(filter_is_streamable(true, false, false));
    assert!(filter_is_streamable(true, false, true));
    assert!(filter_is_streamable(true, true, true));
    assert!(!filter_is_streamable(true, true, false));
    assert!(!filter_is_streamable(false, false, true));
}

#[test]
fn a_fetch_comes_before_the_length_of_a_slice() {
    assert_eq!(scan_slice(None, None), None);
    assert_eq!(scan_slice(None, Some(3)), Some((0, 3)));
    assert_eq!(scan_slice(Some((-4, 9)), None), Some((-4, 9)));
    assert_eq!(scan_slice(Some((-4, 9)), Some(3)), Some((-4, 3)));
}

#[test]
fn the_reader_follows_the_format() {
    assert!(scan_reader(ScanFormat::Csv, 1, false) == Reader::Csv);
    assert!(scan_reader(ScanFormat::Ipc, 2, false) == Reader::Ipc);
    assert!(scan_reader(ScanFormat::Parquet, 1, true) == Reader::Parquet);
    assert!(scan_reader(ScanFormat::NdJson, 0, true) == Reader::Json);
    assert!(scan_reader(ScanFormat::Ipc, 2, true) == Reader::MultiScan);
    assert!(scan_reader(ScanFormat::Anonymous, 2, true) == Reader::Anonymous);
}

#[test]
fn a_python_scan_filters_where_it_can() {
    assert!(matches!(python_predicate(false, true, None), PythonPredicate::Keep));
    assert!(matches!(
        python_predicate(true, true, Some(String::from("x > 1"))),
        PythonPredicate::PyArrow { expression } if expression == "x > 1"
    ));
    assert!(matches!(python_predicate(true, true, None), PythonPredicate::Compile));
    assert!(matches!(
        python_predicate(true, false, Some(String::from("x"))),
        PythonPredicate::SerializeAndCompile
    ));
}

#[test]
fn places_are_grounded_from_the_leaves_up() {
    let edges = vec![vec![1, 2], vec![2], vec![], vec![4], vec![3], vec![9], vec![5], vec![7]];
    assert_eq!(
        ground(&edges),
        vec![true, true, true, false, false, false, false, false]
    );
    assert!(ground(&vec![]).is_empty());
}

fn source(lp: &mut Arena<IR>) -> Node {
    let a = Column::from(Series::new(PlSmallStr::from("a"), vec![1i32]));
    let df = DataFrame::new(vec![a]).unwrap();
    let schema = df.schema().clone();
    lp.add(IR::DataFrameScan { df: Arc::new(df), schema, output_schema: None })
}

#[test]
fn a_tree_has_each_node_once() {
    let mut lp = Arena::new();
    let a = source(&mut lp);
    let b = source(&mut lp);
    let both = lp.add(IR::Union { inputs: vec![a, b], options: UnionOptions::default() });
    assert!(plan_is_tree(&lp, a.0));
    assert!(plan_is_tree(&lp, both.0));
    let twice = lp.add(IR::Union { inputs: vec![a, a], options: UnionOptions::default() });
    assert!(!plan_is_tree(&lp, twice.0));
    let slice = lp.add(IR::Slice { input: a, offset: 0, len: 1 });
    let shared = lp.add(IR::Union { inputs: vec![both, slice], options: UnionOptions::default() });
    assert!(!plan_is_tree(&lp, shared.0));
    assert!(plan_is_tree(&lp, slice.0));
}

#[test]
fn a_tree_is_complete_and_ends() {
    let mut lp = Arena::new();
    assert!(!plan_is_tree(&lp, 0));
    let gone = lp.add(IR::Invalid);
    assert!(!plan_is_tree(&lp, gone.0));
    let above = lp.add(IR::Slice { input: gone, offset: 0, len: 1 });
    assert!(!plan_is_tree(&lp, above.0));
    let own = lp.add(IR::Slice { input: Node(2), offset: 0, len: 1 });
    assert_eq!(own.0, 2);
    assert!(!plan_is_tree(&lp, own.0));
    let there = lp.add(IR::Slice { input: Node(4), offset: 0, len: 1 });
    let back = lp.add(IR::Slice { input: there, offset: 0, len: 1 });
    assert_eq!(back.0, 4);
    assert!(!plan_is_tree(&lp, there.0));
    assert!(!plan_is_tree(&lp, back.0));
}

#[test]
fn a_plan_without_expressions_is_vouched_for() {
    let mut lp = Arena::new();
    let ex: Arena<AExpr> = Arena::new();
    let a = source(&mut lp);
    let slice = lp.add(IR::Slice { input: a, offset: 0, len: 1 });
    assert!(plan_is_vouched(&lp, slice.0, &ex, 1));
    assert!(!plan_is_vouched(&lp, slice.0 + 1, &ex, 1));
}

#[test]
fn a_tree_ends_where_planning_stops() {
    let mut lp = Arena::new();
    let a = source(&mut lp);
    let sink = lp.add(IR::Sink { input: Node(100), payload: SinkType::Memory });
    assert!(plan_is_tree(&lp, sink.0));
    let inputs = vec![sink, a, a, Node(100)];
    let union = lp.add(IR::Union { inputs, options: UnionOptions::default() });
    assert!(plan_is_tree(&lp, union.0));
    let inputs = vec![a, a, sink];
    let early = lp.add(IR::Union { inputs, options: UnionOptions::default() });
    assert!(!plan_is_tree(&lp, early.0));
    // A node that is its own input.
    let own = lp.add(IR::Union { inputs: vec![], options: UnionOptions::default() });
    lp.replace(own, IR::Slice { input: own, offset: 0, len: 1 });
    assert!(!plan_is_tree(&lp, own.0));
}
