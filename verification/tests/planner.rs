use polars_core::error::PolarsResult;
use polars_core::prelude::{
    CategoricalOrdering, Column, DataFrame, DataType, IntoColumn, NamedFrom, PlSmallStr, Series,
    SortMultipleOptions, UniqueKeepStrategy,
};
use polars_core::{disable_string_cache, enable_string_cache, StringCacheHolder};
use polars_engine::checks::plan_asks_for_threads;
use polars_engine::decisions::Reader;
use polars_engine::physical::{Executor, Grouping};
use polars_engine::planner::{
    checked_create_physical_plan, checked_create_physical_plan_in, create_physical_plan,
    create_physical_plan_in, partitionable_gb,
};
use polars_engine::state::{ConversionState, PlanError, Setting};
use polars_expr::state::ExecutionState;
use polars_plan::global::FETCH_ROWS;
use polars_plan::prelude::expr_ir::{ExprIR, OutputName};
use polars_plan::prelude::{
    AExpr, AnonymousScan, AnonymousScanArgs, AnonymousScanOptions, Arena, DistinctOptionsIR,
    FileInfo, FileScan, FileScanOptions, FileType, FunctionExpr, FunctionIR, FunctionOptions,
    GroupbyOptions, HConcatOptions, IRAggExpr, JoinOptions, JoinTypeOptionsIR, LiteralValue,
    NDJsonReadOptions, Node, Operator, ProjectionOptions, ScanSources, SinkType, SpecialEq,
    UnionOptions, WindowMapping, WindowType, IR,
};
use polars_schema::Schema;
use std::num::NonZeroUsize;
use std::path::PathBuf;
use std::sync::Arc;

struct Bench {
    lp: Arena<IR>,
    ex: Arena<AExpr>,
}

fn bench() -> Bench {
    Bench { lp: Arena::new(), ex: Arena::new() }
}

struct NoRows;

impl AnonymousScan for NoRows {
    fn as_any(&self) -> &dyn std::any::Any {
        self
    }

    fn scan(&self, _options: AnonymousScanArgs) -> PolarsResult<DataFrame> {
        Ok(DataFrame::empty())
    }
}

fn quiet() -> ConversionState {
    ConversionState {
        expr_depth: 512,
        threads: 4,
        string_cache: Setting::Given(false),
        fetch_rows: Setting::Given(None),
        multi_file: false,
    }
}

fn frame() -> DataFrame {
    let a = Column::from(Series::new(PlSmallStr::from("a"), vec![1i32, 2, 3]));
    let b = Column::from(Series::new(PlSmallStr::from("b"), vec![3i32, 2, 1]));
    DataFrame::new(vec![a, b]).unwrap()
}

impl Bench {
    fn frame_scan(&mut self, df: DataFrame) -> Node {
        let schema = df.schema().clone();
        self.lp.add(IR::DataFrameScan { df: Arc::new(df), schema, output_schema: None })
    }

    fn source(&mut self) -> Node {
        self.frame_scan(frame())
    }

    fn csv(&mut self, paths: Vec<&str>, slice: Option<(i64, usize)>, predicate: Option<ExprIR>) -> Node {
        let scan_type = FileScan::Csv { options: Default::default(), cloud_options: None };
        self.file(scan_type, paths, slice, predicate)
    }

    fn file(
        &mut self,
        scan_type: FileScan,
        paths: Vec<&str>,
        slice: Option<(i64, usize)>,
        predicate: Option<ExprIR>,
    ) -> Node {
        let paths: Vec<PathBuf> = paths.into_iter().map(PathBuf::from).collect();
        let file_info =
            FileInfo { schema: frame().schema().clone(), ..Default::default() };
        self.lp.add(IR::Scan {
            sources: ScanSources::Paths(paths.into()),
            file_info,
            hive_parts: None,
            predicate,
            output_schema: None,
            scan_type,
            file_options: FileScanOptions { slice, ..Default::default() },
        })
    }

    fn expr(&mut self, node: AExpr, name: &str) -> ExprIR {
        ExprIR::new(self.ex.add(node), OutputName::ColumnLhs(PlSmallStr::from(name)))
    }

    fn col(&mut self, name: &str) -> ExprIR {
        self.expr(AExpr::Column(PlSmallStr::from(name)), name)
    }

    fn lit(&mut self, value: i32) -> ExprIR {
        self.expr(AExpr::Literal(LiteralValue::Int32(value)), "literal")
    }

    fn binary(&mut self, left: &ExprIR, op: Operator, right: &ExprIR, name: &str) -> ExprIR {
        self.expr(AExpr::BinaryExpr { left: left.node(), op, right: right.node() }, name)
    }

    fn a_is_positive(&mut self) -> ExprIR {
        let a = self.col("a");
        let zero = self.lit(0);
        self.binary(&a, Operator::Gt, &zero, "a")
    }

    fn sum(&mut self, name: &str) -> ExprIR {
        let input = self.col(name);
        self.expr(AExpr::Agg(IRAggExpr::Sum(input.node())), name)
    }

    fn groups(&mut self, name: &str) -> ExprIR {
        let input = self.col(name);
        self.expr(AExpr::Agg(IRAggExpr::AggGroups(input.node())), name)
    }

    fn negated(&mut self, name: &str) -> ExprIR {
        let input = self.col(name);
        self.expr(
            AExpr::Function {
                input: vec![input],
                function: FunctionExpr::Negate,
                options: FunctionOptions::default(),
            },
            name,
        )
    }

    fn windowed(&mut self, name: &str) -> ExprIR {
        let function = self.sum(name).node();
        let by = self.col("b").node();
        self.expr(
            AExpr::Window {
                function,
                partition_by: vec![by],
                order_by: None,
                options: WindowType::Over(WindowMapping::GroupsToRows),
            },
            name,
        )
    }

    fn filter(&mut self, input: Node, predicate: ExprIR) -> Node {
        self.lp.add(IR::Filter { input, predicate })
    }

    fn slice(&mut self, input: Node, offset: i64, len: u32) -> Node {
        self.lp.add(IR::Slice { input, offset, len })
    }

    fn select(&mut self, input: Node, expr: Vec<ExprIR>, should_broadcast: bool) -> Node {
        let options = ProjectionOptions { should_broadcast, ..Default::default() };
        self.lp.add(IR::Select { input, expr, schema: frame().schema().clone(), options })
    }

    fn stack(&mut self, input: Node, exprs: Vec<ExprIR>, should_broadcast: bool) -> Node {
        let options = ProjectionOptions { should_broadcast, ..Default::default() };
        self.lp.add(IR::HStack { input, exprs, schema: frame().schema().clone(), options })
    }

    fn sort(&mut self, input: Node, by_column: Vec<ExprIR>) -> Node {
        self.lp.add(IR::Sort {
            input,
            by_column,
            slice: None,
            sort_options: SortMultipleOptions::default(),
        })
    }

    fn group_by(
        &mut self,
        input: Node,
        keys: Vec<ExprIR>,
        aggs: Vec<ExprIR>,
        options: GroupbyOptions,
    ) -> Node {
        self.lp.add(IR::GroupBy {
            input,
            keys,
            aggs,
            schema: frame().schema().clone(),
            maintain_order: false,
            options: Arc::new(options),
            apply: None,
        })
    }

    fn join(
        &mut self,
        input_left: Node,
        input_right: Node,
        left_on: Vec<ExprIR>,
        right_on: Vec<ExprIR>,
        options: JoinOptions,
    ) -> Node {
        self.lp.add(IR::Join {
            input_left,
            input_right,
            schema: frame().schema().clone(),
            left_on,
            right_on,
            options: Arc::new(options),
        })
    }

    fn union(&mut self, inputs: Vec<Node>, from_partitioned_ds: bool) -> Node {
        let options = UnionOptions { from_partitioned_ds, ..Default::default() };
        self.lp.add(IR::Union { inputs, options })
    }

    fn memory_sink(&mut self, input: Node) -> Node {
        self.lp.add(IR::Sink { input, payload: SinkType::Memory })
    }

    fn file_sink(&mut self, input: Node) -> Node {
        let payload = SinkType::File {
            path: Arc::new(PathBuf::from("out.json")),
            file_type: FileType::Json(Default::default()),
            cloud_options: None,
        };
        self.lp.add(IR::Sink { input, payload })
    }

    fn plan(&mut self, root: Node) -> Result<Executor, PlanError> {
        self.plan_in(root, &quiet())
    }

    fn plan_in(&mut self, root: Node, state: &ConversionState) -> Result<Executor, PlanError> {
        create_physical_plan_in(root, &mut self.lp, &self.ex, state)
    }

    fn planned(&mut self, root: Node) -> Executor {
        self.planned_in(root, &quiet())
    }

    fn planned_in(&mut self, root: Node, state: &ConversionState) -> Executor {
        match self.plan_in(root, state) {
            Ok(executor) => executor,
            Err(error) => panic!("{:?}", error.message()),
        }
    }

    fn is_taken(&self, node: Node) -> bool {
        matches!(self.lp.get(node), IR::Invalid)
    }
}

fn count(executor: &Executor) -> usize {
    match executor {
        Executor::Union { inputs, .. } | Executor::HConcat { inputs, .. } => {
            1 + inputs.iter().map(count).sum::<usize>()
        },
        Executor::Scan { .. } | Executor::DataFrame { .. } => 1,
        Executor::Slice { input, .. }
        | Executor::Filter { input, .. }
        | Executor::Projection { input, .. }
        | Executor::Sort { input, .. }
        | Executor::Cache { input, .. }
        | Executor::Unique { input, .. }
        | Executor::GroupBy { input, .. }
        | Executor::Stack { input, .. }
        | Executor::Udf { input, .. }
        | Executor::ProjectionSimple { input, .. } => 1 + count(input),
        Executor::Join { input_left, input_right, .. } => 1 + count(input_left) + count(input_right),
        Executor::ExternalContext { input, contexts } => {
            1 + count(input) + contexts.iter().map(count).sum::<usize>()
        },
    }
}

#[test]
fn a_frame_scan_reads_all_columns() {
    let mut b = bench();
    let root = b.source();
    let Executor::DataFrame { node, projection } = b.planned(root) else { panic!("no frame") };
    assert!(projection.is_none());
    assert!(matches!(node, IR::DataFrameScan { .. }));
    assert!(b.is_taken(root));
}

#[test]
fn a_frame_scan_keeps_its_projection() {
    let mut b = bench();
    let df = frame();
    let schema = df.schema().clone();
    let mut cut = Schema::default();
    cut.insert(PlSmallStr::from("b"), DataType::Int32);
    let root = b.lp.add(IR::DataFrameScan {
        df: Arc::new(df),
        schema,
        output_schema: Some(Arc::new(cut)),
    });
    let Executor::DataFrame { projection, .. } = b.planned(root) else { panic!("no frame") };
    assert_eq!(projection, Some(vec![String::from("b")]));
}

#[test]
fn a_slice_keeps_offset_and_length() {
    let mut b = bench();
    let input = b.source();
    let root = b.slice(input, -3, 2);
    let Executor::Slice { input: below, offset, len } = b.planned(root) else { panic!("no slice") };
    assert_eq!((offset, len), (-3, 2));
    assert!(matches!(*below, Executor::DataFrame { .. }));
    assert!(b.is_taken(root) && b.is_taken(input));
}

#[test]
fn a_row_wise_filter_is_streamable() {
    let mut b = bench();
    let input = b.source();
    let predicate = b.a_is_positive();
    let root = b.filter(input, predicate);
    let Executor::Filter { predicate, has_windows, streamable, .. } = b.planned(root) else {
        panic!("no filter")
    };
    assert!(streamable && !has_windows);
    let mask = predicate.expr.evaluate(&frame(), &ExecutionState::default()).unwrap();
    let mask: Vec<Option<bool>> = mask.bool().unwrap().into_iter().collect();
    assert_eq!(mask, vec![Some(true); 3]);
}

#[test]
fn a_filter_that_aggregates_is_not_streamable() {
    let mut b = bench();
    let input = b.source();
    let total = b.sum("a");
    let zero = b.lit(0);
    let predicate = b.binary(&total, Operator::Gt, &zero, "a");
    let root = b.filter(input, predicate);
    let Executor::Filter { streamable, .. } = b.planned(root) else { panic!("no filter") };
    assert!(!streamable);
}

#[test]
fn a_filter_with_a_window_function_says_so() {
    let mut b = bench();
    let input = b.source();
    let window = b.windowed("a");
    let zero = b.lit(0);
    let predicate = b.binary(&window, Operator::Gt, &zero, "a");
    let root = b.filter(input, predicate);
    let Executor::Filter { has_windows, streamable, .. } = b.planned(root) else {
        panic!("no filter")
    };
    assert!(has_windows && !streamable);
}

fn categorical_filter(string_cache: Setting<bool>) -> bool {
    let mut b = bench();
    let dtype = DataType::Categorical(None, CategoricalOrdering::Physical);
    let c = Series::new(PlSmallStr::from("c"), vec!["x", "y", "x"]).cast(&dtype).unwrap();
    let a = Series::new(PlSmallStr::from("a"), vec![1i32, 2, 3]);
    let df = DataFrame::new(vec![a.into_column(), c.into_column()]).unwrap();
    let input = b.frame_scan(df);
    let predicate = b.a_is_positive();
    let root = b.filter(input, predicate);
    let state = ConversionState { string_cache, ..quiet() };
    let Executor::Filter { streamable, .. } = b.planned_in(root, &state) else {
        panic!("no filter")
    };
    streamable
}

#[test]
fn categoricals_stream_with_the_string_cache_only() {
    assert!(!categorical_filter(Setting::Given(false)));
    assert!(categorical_filter(Setting::Given(true)));
}

#[test]
fn the_string_cache_is_looked_up_at_each_filter() {
    assert!(!categorical_filter(Setting::LookedUp));
    let holder = StringCacheHolder::hold();
    assert!(categorical_filter(Setting::LookedUp));
    assert!(!categorical_filter(Setting::Given(false)));
    drop(holder);
    assert!(!categorical_filter(Setting::LookedUp));
}

#[test]
fn a_schema_function_can_switch_the_string_cache_on() {
    let mut b = bench();
    let dtype = DataType::Categorical(None, CategoricalOrdering::Physical);
    let c = Series::new(PlSmallStr::from("a"), vec!["x", "y"]).cast(&dtype).unwrap();
    let input = b.frame_scan(DataFrame::new(vec![c.into_column()]).unwrap());
    let schema = |input: &Schema<DataType>| -> PolarsResult<Arc<Schema<DataType>>> {
        enable_string_cache();
        Ok(Arc::new(input.clone()))
    };
    let function = |df: DataFrame| -> PolarsResult<DataFrame> { Ok(df) };
    let function = FunctionIR::Opaque {
        function: Arc::new(function),
        schema: Some(Arc::new(schema)),
        predicate_pd: false,
        projection_pd: false,
        streamable: true,
        fmt_str: PlSmallStr::from("switch"),
    };
    let input = b.lp.add(IR::MapFunction { input, function });
    let predicate = b.col("a");
    let root = b.filter(input, predicate);
    let Ok(state) = ConversionState::new(4, false) else { panic!("no state") };
    let Executor::Filter { streamable, .. } = b.planned_in(root, &state) else {
        panic!("no filter")
    };
    assert!(streamable);
    disable_string_cache();
}

#[test]
fn a_projection_of_columns_is_spread() {
    let mut b = bench();
    let input = b.source();
    let exprs = vec![b.col("a"), b.col("b")];
    let root = b.select(input, exprs, true);
    let Executor::Projection { exprs, has_windows, input_schema, allow_vertical_parallelism, .. } =
        b.planned(root)
    else {
        panic!("no projection")
    };
    assert_eq!(exprs.len(), 2);
    assert!(!has_windows && allow_vertical_parallelism);
    assert_eq!(input_schema.len(), 2);
}

#[test]
fn a_projection_of_literals_is_not_spread() {
    let mut b = bench();
    let input = b.source();
    let exprs = vec![b.lit(1), b.lit(2)];
    let root = b.select(input, exprs, true);
    let Executor::Projection { allow_vertical_parallelism, .. } = b.planned(root) else {
        panic!("no projection")
    };
    assert!(!allow_vertical_parallelism);
}

#[test]
fn a_projection_with_one_column_beside_literals_is_spread() {
    let mut b = bench();
    let input = b.source();
    let exprs = vec![b.lit(1), b.col("a")];
    let root = b.select(input, exprs, true);
    let Executor::Projection { allow_vertical_parallelism, .. } = b.planned(root) else {
        panic!("no projection")
    };
    assert!(allow_vertical_parallelism);
}

#[test]
fn a_projection_is_not_spread_without_broadcast_or_with_an_aggregation() {
    let mut b = bench();
    let input = b.source();
    let exprs = vec![b.col("a")];
    let root = b.select(input, exprs, false);
    let Executor::Projection { allow_vertical_parallelism, .. } = b.planned(root) else {
        panic!("no projection")
    };
    assert!(!allow_vertical_parallelism);
    let input = b.source();
    let exprs = vec![b.col("a"), b.sum("b")];
    let root = b.select(input, exprs, true);
    let Executor::Projection { allow_vertical_parallelism, .. } = b.planned(root) else {
        panic!("no projection")
    };
    assert!(!allow_vertical_parallelism);
}

#[test]
fn a_projection_notices_windows_in_any_expression() {
    let mut b = bench();
    let input = b.source();
    let exprs = vec![b.windowed("a"), b.col("b")];
    let root = b.select(input, exprs, true);
    let Executor::Projection { has_windows, .. } = b.planned(root) else { panic!("no projection") };
    assert!(has_windows);
}

#[test]
fn added_columns_of_literals_are_spread() {
    let mut b = bench();
    let input = b.source();
    let exprs = vec![b.lit(1)];
    let root = b.stack(input, exprs, true);
    let Executor::Stack { exprs, allow_vertical_parallelism, has_windows, .. } = b.planned(root)
    else {
        panic!("no stack")
    };
    assert_eq!(exprs.len(), 1);
    assert!(allow_vertical_parallelism && !has_windows);
    let input = b.source();
    let exprs = vec![b.lit(1)];
    let root = b.stack(input, exprs, false);
    let Executor::Stack { allow_vertical_parallelism, .. } = b.planned(root) else {
        panic!("no stack")
    };
    assert!(!allow_vertical_parallelism);
}

#[test]
fn a_sort_compiles_its_columns() {
    let mut b = bench();
    let input = b.source();
    let by = vec![b.col("b"), b.col("a")];
    let root = b.sort(input, by);
    let Executor::Sort { by_column, node, .. } = b.planned(root) else { panic!("no sort") };
    assert_eq!(by_column.len(), 2);
    assert!(matches!(node, IR::Sort { .. }));
    let column = by_column[0].expr.evaluate(&frame(), &ExecutionState::default()).unwrap();
    let values: Vec<Option<i32>> = column.i32().unwrap().into_iter().collect();
    assert_eq!(values, vec![Some(3), Some(2), Some(1)]);
}

#[test]
fn a_sort_fails_before_its_input_is_taken() {
    let mut b = bench();
    let input = b.source();
    let by = vec![b.col("a"), b.groups("a")];
    let root = b.sort(input, by);
    assert!(matches!(b.plan(root), Err(PlanError::Expression { .. })));
    assert!(b.is_taken(root));
    assert!(!b.is_taken(input));
}

#[test]
fn a_projection_fails_after_its_input_is_taken() {
    let mut b = bench();
    let input = b.source();
    let exprs = vec![b.groups("a")];
    let root = b.select(input, exprs, true);
    assert!(matches!(b.plan(root), Err(PlanError::Expression { .. })));
    assert!(b.is_taken(root) && b.is_taken(input));
}

#[test]
fn a_filter_and_added_columns_and_a_scan_pass_on_the_error_of_an_expression() {
    let mut b = bench();
    let input = b.source();
    let predicate = b.groups("a");
    let root = b.filter(input, predicate);
    assert!(matches!(b.plan(root), Err(PlanError::Expression { .. })));
    let input = b.source();
    let exprs = vec![b.groups("a")];
    let root = b.stack(input, exprs, true);
    assert!(matches!(b.plan(root), Err(PlanError::Expression { .. })));
    let predicate = b.groups("a");
    let root = b.csv(vec!["x.csv"], None, Some(predicate));
    assert!(matches!(b.plan(root), Err(PlanError::Expression { .. })));
}

#[test]
fn a_cache_keeps_its_name_and_hits() {
    let mut b = bench();
    let input = b.source();
    let root = b.lp.add(IR::Cache { input, id: 77, cache_hits: 3 });
    let Executor::Cache { id, count: hits, .. } = b.planned(root) else { panic!("no cache") };
    assert_eq!((id, hits), (77, 3));
}

#[test]
fn plain_nodes_become_plain_executors() {
    let mut b = bench();
    let input = b.source();
    let options = DistinctOptionsIR {
        subset: None,
        maintain_order: true,
        keep_strategy: UniqueKeepStrategy::First,
        slice: None,
    };
    let distinct = b.lp.add(IR::Distinct { input, options });
    let mapped = b.lp.add(IR::MapFunction { input: distinct, function: FunctionIR::Rechunk });
    let columns = frame().schema().clone();
    let root = b.lp.add(IR::SimpleProjection { input: mapped, columns });
    let Executor::ProjectionSimple { input, node } = b.planned(root) else { panic!("no projection") };
    assert!(matches!(node, IR::SimpleProjection { .. }));
    let Executor::Udf { input, node } = *input else { panic!("no function") };
    assert!(matches!(node, IR::MapFunction { function: FunctionIR::Rechunk, .. }));
    let Executor::Unique { input, node } = *input else { panic!("no distinct") };
    assert!(matches!(node, IR::Distinct { .. }));
    assert!(matches!(*input, Executor::DataFrame { .. }));
}

#[test]
fn unions_and_concatenations_keep_the_order_of_their_inputs() {
    let mut b = bench();
    let first = b.source();
    let second = b.source();
    let second = b.slice(second, 0, 1);
    let third = b.source();
    let third = b.lp.add(IR::Cache { input: third, id: 1, cache_hits: 0 });
    let union = b.union(vec![first, second], false);
    let schema = frame().schema().clone();
    let root =
        b.lp.add(IR::HConcat { inputs: vec![third, union], schema, options: HConcatOptions::default() });
    let Executor::HConcat { inputs, .. } = b.planned(root) else { panic!("no concatenation") };
    assert_eq!(inputs.len(), 2);
    assert!(matches!(inputs[0], Executor::Cache { .. }));
    let Executor::Union { inputs, .. } = &inputs[1] else { panic!("no union") };
    assert_eq!(inputs.len(), 2);
    assert!(matches!(inputs[0], Executor::DataFrame { .. }));
    assert!(matches!(inputs[1], Executor::Slice { .. }));
}

#[test]
fn an_empty_union_is_planned() {
    let mut b = bench();
    let root = b.union(vec![], false);
    let Executor::Union { inputs, .. } = b.planned(root) else { panic!("no union") };
    assert!(inputs.is_empty());
}

#[test]
fn an_external_context_keeps_its_input_apart() {
    let mut b = bench();
    let input = b.source();
    let input = b.slice(input, 1, 1);
    let one = b.source();
    let two = b.source();
    let two = b.lp.add(IR::Cache { input: two, id: 2, cache_hits: 0 });
    let schema = frame().schema().clone();
    let root = b.lp.add(IR::ExtContext { input, contexts: vec![one, two], schema });
    let Executor::ExternalContext { input, contexts } = b.planned(root) else {
        panic!("no context")
    };
    assert!(matches!(*input, Executor::Slice { .. }));
    assert_eq!(contexts.len(), 2);
    assert!(matches!(contexts[0], Executor::DataFrame { .. }));
    assert!(matches!(contexts[1], Executor::Cache { .. }));
}

#[test]
fn an_external_context_plans_its_input_first() {
    let mut b = bench();
    let input = b.source();
    let input = b.memory_sink(input);
    let context = b.source();
    let context = b.file_sink(context);
    let schema = frame().schema().clone();
    let root = b.lp.add(IR::ExtContext { input, contexts: vec![context], schema });
    assert!(matches!(b.plan(root), Err(PlanError::MemorySink)));
    assert!(!b.is_taken(context));
}

fn grouping_of(b: &mut Bench, root: Node) -> Grouping {
    let Executor::GroupBy { grouping, .. } = b.planned(root) else { panic!("no group-by") };
    grouping
}

#[test]
fn a_simple_group_by_works_on_partitions() {
    let mut b = bench();
    let input = b.source();
    let keys = vec![b.col("a")];
    let aggs = vec![b.sum("b")];
    let root = b.group_by(input, keys, aggs, GroupbyOptions::default());
    let Executor::GroupBy { keys, aggs, grouping, input_schema, .. } = b.planned(root) else {
        panic!("no group-by")
    };
    assert_eq!((keys.len(), aggs.len(), input_schema.len()), (1, 1, 2));
    let Grouping::Partitioned { from_partitioned_ds, keys, aggs } = grouping else {
        panic!("not on partitions")
    };
    assert!(!from_partitioned_ds);
    assert_eq!(format!("{:?}", keys), "[col(\"a\")]");
    assert_eq!(format!("{:?}", aggs), "[col(\"b\").sum()]");
}

#[test]
fn a_group_by_knows_a_partitioned_dataset() {
    let mut b = bench();
    let one = b.source();
    let two = b.source();
    let union = b.union(vec![one, two], true);
    let input = b.slice(union, 0, 5);
    let keys = vec![b.col("a")];
    let aggs = vec![b.sum("b")];
    let root = b.group_by(input, keys, aggs, GroupbyOptions::default());
    assert!(matches!(
        grouping_of(&mut b, root),
        Grouping::Partitioned { from_partitioned_ds: true, .. }
    ));
    let one = b.source();
    let union = b.union(vec![one], false);
    let keys = vec![b.col("a")];
    let aggs = vec![b.sum("b")];
    let root = b.group_by(union, keys, aggs, GroupbyOptions::default());
    assert!(matches!(
        grouping_of(&mut b, root),
        Grouping::Partitioned { from_partitioned_ds: false, .. }
    ));
}

#[test]
fn a_group_by_that_is_not_simple_works_on_all_rows() {
    let mut b = bench();
    // No key.
    let input = b.source();
    let aggs = vec![b.sum("b")];
    let root = b.group_by(input, vec![], aggs, GroupbyOptions::default());
    assert!(matches!(grouping_of(&mut b, root), Grouping::Whole));
    // Three keys.
    let input = b.source();
    let keys = vec![b.col("a"), b.col("b"), b.col("a")];
    let aggs = vec![b.sum("b")];
    let root = b.group_by(input, keys, aggs, GroupbyOptions::default());
    assert!(matches!(grouping_of(&mut b, root), Grouping::Whole));
    // A key that is computed.
    let input = b.source();
    let keys = vec![b.a_is_positive()];
    let aggs = vec![b.sum("b")];
    let root = b.group_by(input, keys, aggs, GroupbyOptions::default());
    assert!(matches!(grouping_of(&mut b, root), Grouping::Whole));
    // An aggregation that cannot be split.
    let input = b.source();
    let keys = vec![b.col("a")];
    let aggs = vec![b.col("b")];
    let root = b.group_by(input, keys, aggs, GroupbyOptions::default());
    assert!(matches!(grouping_of(&mut b, root), Grouping::Whole));
    // A literal series as the key.
    let input = b.source();
    let series = Series::new(PlSmallStr::from("s"), vec![1i32, 1, 2]);
    let key = b.expr(AExpr::Literal(LiteralValue::Series(SpecialEq::new(series))), "s");
    let aggs = vec![b.sum("b")];
    let root = b.group_by(input, vec![key], aggs, GroupbyOptions::default());
    assert!(matches!(grouping_of(&mut b, root), Grouping::Whole));
}

#[test]
fn two_keys_still_work_on_partitions() {
    let mut b = bench();
    let input = b.source();
    let keys = vec![b.col("a"), b.col("b")];
    let aggs = vec![b.sum("b")];
    let root = b.group_by(input, keys, aggs, GroupbyOptions::default());
    assert!(matches!(grouping_of(&mut b, root), Grouping::Partitioned { .. }));
}

#[test]
fn windows_come_before_partitions() {
    let mut b = bench();
    let input = b.source();
    let keys = vec![b.col("a")];
    let aggs = vec![b.sum("b")];
    let options = GroupbyOptions {
        dynamic: Some(Default::default()),
        rolling: Some(Default::default()),
        slice: None,
    };
    let root = b.group_by(input, keys, aggs, options);
    assert!(matches!(grouping_of(&mut b, root), Grouping::Dynamic));
    let input = b.source();
    let keys = vec![b.col("a")];
    let aggs = vec![b.sum("b")];
    let options =
        GroupbyOptions { dynamic: None, rolling: Some(Default::default()), slice: None };
    let root = b.group_by(input, keys, aggs, options);
    assert!(matches!(grouping_of(&mut b, root), Grouping::Rolling));
}

#[test]
fn a_group_by_compiles_keys_on_columns_and_aggregations_on_groups() {
    let mut b = bench();
    // Groups can be asked for in an aggregation, not in a key.
    let input = b.source();
    let keys = vec![b.col("a")];
    let aggs = vec![b.groups("b")];
    let root = b.group_by(input, keys, aggs, GroupbyOptions::default());
    assert!(matches!(grouping_of(&mut b, root), Grouping::Whole));
    let input = b.source();
    let keys = vec![b.groups("a")];
    let aggs = vec![b.sum("b")];
    let root = b.group_by(input, keys, aggs, GroupbyOptions::default());
    assert!(matches!(b.plan(root), Err(PlanError::Expression { .. })));
    assert!(!b.is_taken(input));
}

#[test]
fn partitioning_is_asked_of_simple_keys_only() {
    let mut b = bench();
    let schema = frame().schema().clone();
    let keys = vec![b.col("a")];
    let aggs = vec![b.sum("b")];
    assert!(partitionable_gb(&keys, &aggs, &schema, &b.ex, false));
    assert!(!partitionable_gb(&keys, &aggs, &schema, &b.ex, true));
    assert!(!partitionable_gb(&vec![], &aggs, &schema, &b.ex, false));
    let many = vec![b.col("a"), b.col("b"), b.col("a")];
    assert!(!partitionable_gb(&many, &aggs, &schema, &b.ex, false));
    let aggs = vec![b.col("b")];
    assert!(!partitionable_gb(&keys, &aggs, &schema, &b.ex, false));
}

fn join_runs_in_parallel(left: Vec<&str>, right: Vec<&str>, force: bool, allow: bool) -> bool {
    let mut b = bench();
    let left = b.csv(left, None, None);
    let left = b.slice(left, 0, 10);
    let right = b.csv(right, None, None);
    let left_on = vec![b.col("a")];
    let right_on = vec![b.col("a"), b.col("b")];
    let options =
        JoinOptions { allow_parallel: allow, force_parallel: force, ..Default::default() };
    let root = b.join(left, right, left_on, right_on, options);
    let Executor::Join { input_left, input_right, left_on, right_on, parallel, cross_filter, .. } =
        b.planned(root)
    else {
        panic!("no join")
    };
    assert!(matches!(*input_left, Executor::Slice { .. }));
    assert!(matches!(*input_right, Executor::Scan { .. }));
    assert_eq!((left_on.len(), right_on.len()), (1, 2));
    assert!(cross_filter.is_none());
    parallel
}

#[test]
fn a_join_of_different_files_runs_in_parallel() {
    assert!(join_runs_in_parallel(vec!["x.csv"], vec!["y.csv"], false, true));
    assert!(join_runs_in_parallel(vec!["d/x.csv"], vec!["x.csv", "e/x.csv"], false, true));
}

#[test]
fn a_join_of_one_file_does_not_run_in_parallel() {
    assert!(!join_runs_in_parallel(vec!["x.csv"], vec!["x.csv"], false, true));
    assert!(!join_runs_in_parallel(vec!["x.csv", "y.csv"], vec!["z.csv", "y.csv"], false, true));
    assert!(!join_runs_in_parallel(vec!["d/x.csv"], vec!["d//x.csv"], false, true));
    assert!(!join_runs_in_parallel(vec!["d/./x.csv"], vec!["d/x.csv"], false, true));
}

#[test]
fn a_join_runs_in_parallel_where_that_is_forced_and_not_where_it_is_not_allowed() {
    assert!(join_runs_in_parallel(vec!["x.csv"], vec!["x.csv"], true, true));
    assert!(join_runs_in_parallel(vec!["x.csv"], vec!["x.csv"], true, false));
    assert!(!join_runs_in_parallel(vec!["x.csv"], vec!["y.csv"], false, false));
}

#[test]
fn a_cross_join_compiles_its_filter() {
    let mut b = bench();
    let left = b.source();
    let right = b.source();
    let predicate = b.a_is_positive();
    let options = JoinOptions {
        options: Some(JoinTypeOptionsIR::Cross { predicate }),
        ..Default::default()
    };
    let root = b.join(left, right, vec![], vec![], options);
    let Executor::Join { cross_filter: Some(filter), parallel, .. } = b.planned(root) else {
        panic!("no filter")
    };
    assert!(parallel);
    let mask = filter.expr.evaluate(&frame(), &ExecutionState::default()).unwrap();
    assert_eq!(mask.len(), 3);
    let left = b.source();
    let right = b.source();
    let predicate = b.groups("a");
    let options = JoinOptions {
        options: Some(JoinTypeOptionsIR::Cross { predicate }),
        ..Default::default()
    };
    let root = b.join(left, right, vec![], vec![], options);
    assert!(matches!(b.plan(root), Err(PlanError::Expression { .. })));
    assert!(b.is_taken(left) && b.is_taken(right));
}

#[test]
fn a_join_fails_on_either_side() {
    let mut b = bench();
    let left = b.source();
    let right = b.source();
    let on = vec![b.groups("a")];
    let other = vec![b.col("a")];
    let root = b.join(left, right, on, other, JoinOptions::default());
    assert!(matches!(b.plan(root), Err(PlanError::Expression { .. })));
    let left = b.source();
    let right = b.source();
    let on = vec![b.col("a")];
    let other = vec![b.groups("a")];
    let root = b.join(left, right, on, other, JoinOptions::default());
    assert!(matches!(b.plan(root), Err(PlanError::Expression { .. })));
    let left = b.source();
    let right = b.source();
    let right = b.memory_sink(right);
    let root = b.join(left, right, vec![], vec![], JoinOptions::default());
    assert!(matches!(b.plan(root), Err(PlanError::MemorySink)));
    assert!(b.is_taken(left));
}

#[test]
fn a_scan_is_read_by_its_format() {
    let mut b = bench();
    let root = b.csv(vec!["x.csv"], Some((2, 5)), None);
    let Executor::Scan { reader, node, predicate, predicate_has_windows, slice } = b.planned(root)
    else {
        panic!("no scan")
    };
    assert!(reader == Reader::Csv);
    assert!(matches!(node, IR::Scan { .. }));
    assert!(predicate.is_none() && !predicate_has_windows);
    assert_eq!(slice, Some((2, 5)));
    let options = NDJsonReadOptions {
        n_threads: None,
        infer_schema_length: None,
        chunk_size: NonZeroUsize::new(1).unwrap(),
        low_memory: false,
        ignore_errors: false,
        schema: None,
        schema_overwrite: None,
    };
    let root =
        b.file(FileScan::NDJson { options, cloud_options: None }, vec!["x.json"], None, None);
    let Executor::Scan { reader, slice, .. } = b.planned(root) else { panic!("no scan") };
    assert!(reader == Reader::Json);
    assert_eq!(slice, None);
    let anonymous = FileScan::Anonymous {
        options: Arc::new(AnonymousScanOptions::default()),
        function: Arc::new(NoRows),
    };
    let root = b.file(anonymous, vec!["x", "y"], None, None);
    let state = ConversionState { multi_file: true, ..quiet() };
    let Executor::Scan { reader, .. } = b.planned_in(root, &state) else { panic!("no scan") };
    assert!(reader == Reader::Anonymous);
}

#[test]
fn a_fetch_sets_the_number_of_rows() {
    let mut b = bench();
    let state = ConversionState { fetch_rows: Setting::Given(Some(7)), ..quiet() };
    let root = b.csv(vec!["x.csv"], Some((2, 5)), None);
    let Executor::Scan { slice, .. } = b.planned_in(root, &state) else { panic!("no scan") };
    assert_eq!(slice, Some((2, 7)));
    let root = b.csv(vec!["x.csv"], None, None);
    let Executor::Scan { slice, .. } = b.planned_in(root, &state) else { panic!("no scan") };
    assert_eq!(slice, Some((0, 7)));
}

#[test]
fn a_fetch_is_looked_up_at_each_scan() {
    let mut b = bench();
    let state = ConversionState { fetch_rows: Setting::LookedUp, ..quiet() };
    let root = b.csv(vec!["x.csv"], Some((2, 5)), None);
    let Executor::Scan { slice, .. } = b.planned_in(root, &state) else { panic!("no scan") };
    assert_eq!(slice, Some((2, 5)));
    FETCH_ROWS.with(|rows| rows.set(Some(7)));
    let root = b.csv(vec!["x.csv"], Some((2, 5)), None);
    let Executor::Scan { slice, .. } = b.planned_in(root, &state) else { panic!("no scan") };
    assert_eq!(slice, Some((2, 7)));
    let root = b.csv(vec!["x.csv"], Some((2, 5)), None);
    let Executor::Scan { slice, .. } = b.planned(root) else { panic!("no scan") };
    assert_eq!(slice, Some((2, 5)));
    FETCH_ROWS.with(|rows| rows.set(None));
}

#[test]
fn several_files_go_to_one_reader_where_that_is_on() {
    let mut b = bench();
    let state = ConversionState { multi_file: true, ..quiet() };
    let root = b.csv(vec!["x.csv", "y.csv"], None, None);
    let Executor::Scan { reader, .. } = b.planned_in(root, &state) else { panic!("no scan") };
    assert!(reader == Reader::MultiScan);
    let root = b.csv(vec!["x.csv"], None, None);
    let Executor::Scan { reader, .. } = b.planned_in(root, &state) else { panic!("no scan") };
    assert!(reader == Reader::Csv);
    let root = b.csv(vec!["x.csv", "y.csv"], None, None);
    let Executor::Scan { reader, .. } = b.planned(root) else { panic!("no scan") };
    assert!(reader == Reader::Csv);
}

#[test]
fn a_scan_compiles_its_predicate() {
    let mut b = bench();
    let predicate = b.windowed("a");
    let root = b.csv(vec!["x.csv"], None, Some(predicate));
    let Executor::Scan { predicate: Some(_), predicate_has_windows, .. } = b.planned(root) else {
        panic!("no predicate")
    };
    assert!(predicate_has_windows);
}

#[test]
fn a_memory_sink_is_refused() {
    let mut b = bench();
    let input = b.source();
    let root = b.memory_sink(input);
    let Err(error) = b.plan(root) else { panic!("planned") };
    assert!(matches!(error, PlanError::MemorySink));
    assert_eq!(
        error.message(),
        Some(String::from("memory sink not supported in the standard engine"))
    );
    assert!(!b.is_taken(input));
}

#[test]
fn a_file_sink_is_refused() {
    let mut b = bench();
    let input = b.source();
    let root = b.file_sink(input);
    let Err(error) = b.plan(root) else { panic!("planned") };
    let printed = "Json(JsonWriterOptions { maintain_order: false })";
    assert_eq!(
        error.message(),
        Some(format!(
            "sink_{} not yet supported in standard engine. Use 'collect().write_{}()'",
            printed, printed
        ))
    );
}

#[test]
fn an_error_of_polars_has_no_message_of_its_own() {
    let mut b = bench();
    let input = b.source();
    let predicate = b.groups("a");
    let root = b.filter(input, predicate);
    let Err(error) = b.plan(root) else { panic!("planned") };
    assert_eq!(error.message(), None);
    let PlanError::Expression { source } = error else { panic!("another error") };
    assert!(source.to_string().contains("agg groups expression only supported in aggregation context"));
}

#[test]
fn a_sink_below_is_refused_and_what_comes_later_stays() {
    let mut b = bench();
    let first = b.source();
    let second = b.source();
    let second = b.file_sink(second);
    let third = b.source();
    let third = b.memory_sink(third);
    let root = b.union(vec![first, second, third], false);
    let root = b.slice(root, 0, 1);
    assert!(matches!(b.plan(root), Err(PlanError::FileSink { .. })));
    assert!(b.is_taken(first) && b.is_taken(second));
    assert!(!b.is_taken(third));
}

#[test]
fn each_node_becomes_one_executor() {
    let mut b = bench();
    let left = b.source();
    let predicate = b.a_is_positive();
    let left = b.filter(left, predicate);
    let one = b.source();
    let two = b.source();
    let right = b.union(vec![one, two], false);
    let on = vec![b.col("a")];
    let other = vec![b.col("b")];
    let join = b.join(left, right, on, other, JoinOptions::default());
    let context = b.source();
    let schema = frame().schema().clone();
    let root = b.lp.add(IR::ExtContext { input: join, contexts: vec![context], schema });
    let nodes = b.lp.len();
    let executor = b.planned(root);
    assert_eq!(count(&executor), nodes);
}

#[test]
fn other_plans_stay_in_the_arena() {
    let mut b = bench();
    let one = b.source();
    let one = b.slice(one, 0, 1);
    let two = b.source();
    let two = b.slice(two, 0, 2);
    assert!(matches!(b.planned(one), Executor::Slice { len: 1, .. }));
    assert!(!b.is_taken(two));
    assert!(matches!(b.planned(two), Executor::Slice { len: 2, .. }));
}

#[test]
fn the_surroundings_are_read_at_the_start() {
    let Ok(state) = ConversionState::new(6, true) else { panic!("no state") };
    assert!(state.multi_file);
    assert_eq!(state.threads, 6);
    assert_eq!(state.expr_depth, 512);
    assert!(matches!(state.string_cache, Setting::LookedUp));
    assert!(matches!(state.fetch_rows, Setting::LookedUp));
    let cache = Setting::Given(true);
    let fetch = Setting::Given(Some(9));
    let Ok(state) = ConversionState::from_parts(Ok(3), 5, cache, fetch, false) else {
        panic!("no state")
    };
    assert_eq!((state.expr_depth, state.threads), (3, 5));
    assert!(matches!(state.string_cache, Setting::Given(true)) && !state.multi_file);
    assert!(matches!(state.fetch_rows, Setting::Given(Some(9))));
    let error = frame().column("absent").map(|_| ()).unwrap_err();
    let cache = Setting::LookedUp;
    let state = ConversionState::from_parts(Err(error), 5, cache, Setting::LookedUp, false);
    let Err(error) = state else { panic!("a state") };
    assert!(matches!(error, PlanError::DepthLimit { .. }));
    assert_eq!(error.message(), None);
}

#[test]
fn planning_reads_its_surroundings_itself() {
    let mut b = bench();
    let input = b.csv(vec!["x.csv", "y.csv"], None, None);
    let root = b.slice(input, 0, 4);
    let Ok(Executor::Slice { input, .. }) = create_physical_plan(root, &mut b.lp, &b.ex, 4, true)
    else {
        panic!("no slice")
    };
    assert!(matches!(*input, Executor::Scan { reader: Reader::MultiScan, slice: None, .. }));
}

#[test]
fn checked_planning_plans_what_it_can_vouch_for() {
    let mut b = bench();
    let input = b.source();
    let predicate = b.a_is_positive();
    let root = b.filter(input, predicate);
    let result = checked_create_physical_plan(root, &mut b.lp, &b.ex, 4, false);
    assert!(matches!(result, Some(Ok(Executor::Filter { streamable: true, .. }))));
    // The plan is used up.
    assert!(checked_create_physical_plan(root, &mut b.lp, &b.ex, 4, false).is_none());
}

#[test]
fn checked_planning_leaves_functions_alone() {
    let mut b = bench();
    let input = b.source();
    let exprs = vec![b.negated("a")];
    let root = b.select(input, exprs, true);
    assert!(checked_create_physical_plan(root, &mut b.lp, &b.ex, 4, false).is_none());
    assert!(!b.is_taken(root) && !b.is_taken(input));
    let Executor::Projection { exprs, .. } = b.planned(root) else { panic!("no projection") };
    assert_eq!(exprs.len(), 1);
    // A schema that a function computes.
    let input = b.source();
    let input = b.lp.add(IR::MapFunction { input, function: FunctionIR::Rechunk });
    let predicate = b.a_is_positive();
    let root = b.filter(input, predicate);
    assert!(checked_create_physical_plan(root, &mut b.lp, &b.ex, 4, false).is_none());
    assert!(matches!(b.planned(root), Executor::Filter { .. }));
}

#[test]
fn checked_planning_leaves_broken_plans_alone() {
    let mut b = bench();
    // An expression that is not in the arena.
    let input = b.source();
    let absent = ExprIR::new(Node(1000), OutputName::ColumnLhs(PlSmallStr::from("a")));
    let root = b.filter(input, absent);
    assert!(checked_create_physical_plan(root, &mut b.lp, &b.ex, 4, false).is_none());
    // An input that is not in the arena.
    let root = b.slice(Node(1000), 0, 1);
    assert!(checked_create_physical_plan(root, &mut b.lp, &b.ex, 4, false).is_none());
    // A node that is used twice.
    let input = b.source();
    let root = b.union(vec![input, input], false);
    assert!(checked_create_physical_plan(root, &mut b.lp, &b.ex, 4, false).is_none());
    // A schema of a union without inputs.
    let input = b.union(vec![], false);
    let predicate = b.a_is_positive();
    let root = b.filter(input, predicate);
    assert!(checked_create_physical_plan(root, &mut b.lp, &b.ex, 4, false).is_none());
}

#[test]
fn checked_planning_gives_the_errors_of_planning() {
    let mut b = bench();
    let input = b.source();
    let root = b.memory_sink(input);
    let result = checked_create_physical_plan(root, &mut b.lp, &b.ex, 4, false);
    assert!(matches!(result, Some(Err(PlanError::MemorySink))));
    let input = b.source();
    let predicate = b.groups("a");
    let root = b.filter(input, predicate);
    let result = checked_create_physical_plan(root, &mut b.lp, &b.ex, 4, false);
    assert!(matches!(result, Some(Err(PlanError::Expression { .. }))));
}

#[test]
fn checked_planning_minds_the_depth_of_expressions() {
    let mut b = bench();
    let input = b.source();
    let predicate = b.a_is_positive();
    let root = b.filter(input, predicate);
    let state = ConversionState { expr_depth: 3, ..quiet() };
    assert!(checked_create_physical_plan_in(root, &mut b.lp, &b.ex, &state).is_none());
    assert!(!b.is_taken(root) && !b.is_taken(input));
    let state = ConversionState { expr_depth: 4, ..quiet() };
    let result = checked_create_physical_plan_in(root, &mut b.lp, &b.ex, &state);
    assert!(matches!(result, Some(Ok(Executor::Filter { .. }))));
    // No limit.
    let input = b.source();
    let predicate = b.a_is_positive();
    let root = b.filter(input, predicate);
    let state = ConversionState { expr_depth: 0, ..quiet() };
    let result = checked_create_physical_plan_in(root, &mut b.lp, &b.ex, &state);
    assert!(matches!(result, Some(Ok(Executor::Filter { .. }))));
}

#[test]
fn a_sink_is_refused_whatever_lies_below() {
    let mut b = bench();
    let root = b.memory_sink(Node(1000));
    assert!(matches!(b.plan(root), Err(PlanError::MemorySink)));
    assert!(b.is_taken(root));
    // An input that has been taken.
    let input = b.source();
    assert!(matches!(b.planned(input), Executor::DataFrame { .. }));
    let sink = b.file_sink(input);
    let root = b.slice(sink, 0, 1);
    let result = checked_create_physical_plan(root, &mut b.lp, &b.ex, 4, false);
    assert!(matches!(result, Some(Err(PlanError::FileSink { .. }))));
    assert!(b.is_taken(sink));
    // A filter asks for the schema below the sink.
    let sink = b.memory_sink(Node(1000));
    let predicate = b.a_is_positive();
    let root = b.filter(sink, predicate);
    assert!(checked_create_physical_plan(root, &mut b.lp, &b.ex, 4, false).is_none());
    let input = b.source();
    let sink = b.memory_sink(input);
    let predicate = b.a_is_positive();
    let root = b.filter(sink, predicate);
    let result = checked_create_physical_plan(root, &mut b.lp, &b.ex, 4, false);
    assert!(matches!(result, Some(Err(PlanError::MemorySink))));
    assert!(!b.is_taken(input));
}

#[test]
fn keys_that_are_not_looked_at_need_not_be_in_the_arena() {
    let mut b = bench();
    let schema = frame().schema().clone();
    let aggs = vec![b.sum("b")];
    let absent = || ExprIR::new(Node(1000), OutputName::ColumnLhs(PlSmallStr::from("a")));
    assert!(!partitionable_gb(&vec![absent()], &aggs, &schema, &b.ex, true));
    let many = vec![absent(), absent(), absent()];
    assert!(!partitionable_gb(&many, &aggs, &schema, &b.ex, false));
}

#[test]
fn keys_are_judged_one_by_one() {
    let mut b = bench();
    let schema = frame().schema().clone();
    let aggs = vec![b.sum("b")];
    let plain = b.col("a");
    let other = b.col("b");
    let computed = b.a_is_positive();
    for (left, right) in [(&plain, &other), (&plain, &computed), (&computed, &computed)] {
        let answer = |keys: Vec<ExprIR>| partitionable_gb(&keys, &aggs, &schema, &b.ex, false);
        let both = answer(vec![left.clone(), right.clone()]);
        assert_eq!(both, answer(vec![right.clone(), left.clone()]));
        assert_eq!(both, answer(vec![left.clone()]) && answer(vec![right.clone()]));
    }
    assert!(partitionable_gb(&vec![plain, other], &aggs, &schema, &b.ex, false));
}

#[test]
fn threads_are_asked_for_where_columns_are_computed() {
    let mut b = bench();
    let input = b.source();
    let slice = b.slice(input, 0, 1);
    assert!(!plan_asks_for_threads(&b.lp, slice.0));
    let exprs = vec![b.col("a")];
    let select = b.select(slice, exprs, true);
    let root = b.slice(select, 0, 1);
    assert!(plan_asks_for_threads(&b.lp, root.0));
    let sink = b.memory_sink(root);
    assert!(!plan_asks_for_threads(&b.lp, sink.0));
    let input = b.source();
    let exprs = vec![b.lit(1)];
    let stack = b.stack(input, exprs, true);
    assert!(plan_asks_for_threads(&b.lp, stack.0));
}

#[test]
fn planning_fails_at_the_first_node_that_stops_it() {
    let mut b = bench();
    let left = b.source();
    let left = b.memory_sink(left);
    let right = b.source();
    let predicate = b.groups("a");
    let right = b.filter(right, predicate);
    let root = b.union(vec![left, right], false);
    assert!(matches!(b.plan(root), Err(PlanError::MemorySink)));
    assert!(b.is_taken(root) && b.is_taken(left));
    assert!(matches!(b.plan(right), Err(PlanError::Expression { .. })));
    let input = b.source();
    let predicate = b.a_is_positive();
    let root = b.filter(input, predicate);
    assert!(b.plan(root).is_ok());
}

#[test]
fn nothing_is_asked_of_what_comes_after_a_sink() {
    let mut b = bench();
    // A node that is used twice.
    let input = b.source();
    let sink = b.source();
    let sink = b.memory_sink(sink);
    let other = b.source();
    let root = b.union(vec![other, sink, input, input], false);
    let result = checked_create_physical_plan(root, &mut b.lp, &b.ex, 4, false);
    assert!(matches!(result, Some(Err(PlanError::MemorySink))));
    assert!(b.is_taken(root) && b.is_taken(other) && b.is_taken(sink));
    assert!(!b.is_taken(input));
    // A context that is not in the arena.
    let input = b.source();
    let sink = b.file_sink(input);
    let schema = frame().schema().clone();
    let contexts = vec![Node(1000)];
    let root = b.lp.add(IR::ExtContext { input: sink, contexts, schema });
    let result = checked_create_physical_plan(root, &mut b.lp, &b.ex, 4, false);
    assert!(matches!(result, Some(Err(PlanError::FileSink { .. }))));
    // An expression that is not in the arena.
    let sink = b.memory_sink(Node(1000));
    let input = b.source();
    let absent = ExprIR::new(Node(1000), OutputName::ColumnLhs(PlSmallStr::from("a")));
    let filter = b.filter(input, absent);
    let root = b.union(vec![sink, filter], false);
    let root = b.slice(root, 0, 1);
    let result = checked_create_physical_plan(root, &mut b.lp, &b.ex, 4, false);
    assert!(matches!(result, Some(Err(PlanError::MemorySink))));
    // Before a sink, everything counts.
    let input = b.source();
    let sink = b.memory_sink(Node(1000));
    let root = b.union(vec![input, input, sink], false);
    assert!(checked_create_physical_plan(root, &mut b.lp, &b.ex, 4, false).is_none());
    // A sort looks beyond the sink.
    let sink = b.memory_sink(input);
    let union = b.union(vec![sink, Node(1000)], false);
    let by = vec![b.col("a")];
    let root = b.sort(union, by);
    assert!(checked_create_physical_plan(root, &mut b.lp, &b.ex, 4, false).is_none());
}

#[test]
fn keys_are_judged_one_by_one_beside_functions() {
    let mut b = bench();
    let schema = frame().schema().clone();
    let negated = b.negated("b");
    let total = b.expr(AExpr::Agg(IRAggExpr::Sum(negated.node())), "b");
    let aggs = vec![total];
    let plain = b.col("a");
    let computed = b.a_is_positive();
    for (left, right) in [(&plain, &plain), (&plain, &computed)] {
        let answer = |keys: Vec<ExprIR>| partitionable_gb(&keys, &aggs, &schema, &b.ex, false);
        let both = answer(vec![left.clone(), right.clone()]);
        assert_eq!(both, answer(vec![right.clone(), left.clone()]));
        assert_eq!(both, answer(vec![left.clone()]) && answer(vec![right.clone()]));
    }
}
