use polars_core::prelude::{
    AnyValue, BooleanChunked, CategoricalOrdering, Column, DataType, Field, IdxSize,
    IntoSeries, NamedFrom, NewChunkedArray, PlSmallStr, Series, StructChunked,
};
use polars_core::scalar::Scalar;
use polars_core::series::IsSorted;
use polars_engine::rle::{
    checked_rle, checked_rle_id, ids_of_changes, lengths_of_changes, rle, rle_id,
};

fn column(name: &str, values: Vec<Option<i32>>) -> Column {
    Column::from(Series::new(PlSmallStr::from(name), values))
}

fn text(name: &str, values: Vec<&str>) -> Column {
    Column::from(Series::new(PlSmallStr::from(name), values))
}

fn encoded(column: &Column) -> (Series, Series) {
    let out = match rle(column) {
        Ok(out) => out,
        Err(error) => panic!("{:?}", error.source),
    };
    assert_eq!(out.name(), column.name());
    let fields = out.struct_().unwrap().fields_as_series();
    assert_eq!(fields.len(), 2);
    assert_eq!(fields[0].name().as_str(), "len");
    assert_eq!(fields[1].name().as_str(), "value");
    assert_eq!(fields[1].dtype(), column.dtype());
    assert_eq!(fields[0].dtype(), &DataType::UInt32);
    assert_eq!(out.len(), fields[0].len());
    assert_eq!(out.null_count(), 0);
    (fields[0].clone(), fields[1].clone())
}

fn lens(series: &Series) -> Vec<IdxSize> {
    series.u32().unwrap().into_no_null_iter().collect()
}

fn ids(column: &Column) -> Vec<IdxSize> {
    match rle_id(column) {
        Ok(out) => {
            assert_eq!(out.name(), column.name());
            assert_eq!(out.dtype(), &DataType::UInt32);
            out.u32().unwrap().into_no_null_iter().collect()
        },
        Err(error) => panic!("{:?}", error.source),
    }
}

#[test]
fn lengths_of_a_mask() {
    assert_eq!(lengths_of_changes(&vec![false, true, false]), vec![2, 2]);
    assert_eq!(lengths_of_changes(&vec![]), vec![1]);
    assert_eq!(lengths_of_changes(&vec![true, true]), vec![1, 1, 1]);
    assert_eq!(lengths_of_changes(&vec![false, false]), vec![3]);
}

#[test]
fn ids_of_a_mask() {
    assert_eq!(ids_of_changes(&vec![false, true, false]), vec![0, 0, 1, 1]);
    assert_eq!(ids_of_changes(&vec![]), vec![0]);
    assert_eq!(ids_of_changes(&vec![true, true]), vec![0, 1, 2]);
}

#[test]
fn runs_of_integers() {
    let s = column("s", vec![Some(1), Some(1), Some(2), Some(1), None, Some(1), Some(3), Some(3)]);
    let (len, value) = encoded(&s);
    assert_eq!(lens(&len), vec![2, 1, 1, 1, 1, 2]);
    let values: Vec<Option<i32>> = value.i32().unwrap().into_iter().collect();
    assert_eq!(values, vec![Some(1), Some(2), Some(1), None, Some(1), Some(3)]);
    assert_eq!(ids(&s), vec![0, 0, 1, 2, 3, 4, 5, 5]);
}

#[test]
fn runs_of_nulls() {
    let s = column("n", vec![None, None, Some(0), None, None, None]);
    let (len, value) = encoded(&s);
    assert_eq!(lens(&len), vec![2, 1, 3]);
    let values: Vec<Option<i32>> = value.i32().unwrap().into_iter().collect();
    assert_eq!(values, vec![None, Some(0), None]);
    assert_eq!(ids(&s), vec![0, 0, 1, 2, 2, 2]);
}

#[test]
fn runs_of_floats() {
    let s = Column::from(Series::new(
        PlSmallStr::from("f"),
        vec![f64::NAN, f64::NAN, 0.0, -0.0, 1.5],
    ));
    let (len, value) = encoded(&s);
    assert_eq!(lens(&len), vec![2, 2, 1]);
    let values: Vec<f64> = value.f64().unwrap().into_no_null_iter().collect();
    assert!(values[0].is_nan());
    assert_eq!(values[1], 0.0);
    assert_eq!(values[2], 1.5);
    assert_eq!(ids(&s), vec![0, 0, 1, 1, 2]);
}

#[test]
fn runs_of_strings() {
    let s = text("t", vec!["a", "a", "b", "b", "b", "a"]);
    let (len, value) = encoded(&s);
    assert_eq!(lens(&len), vec![2, 3, 1]);
    let values: Vec<Option<&str>> = value.str().unwrap().into_iter().collect();
    assert_eq!(values, vec![Some("a"), Some("b"), Some("a")]);
    assert_eq!(ids(&s), vec![0, 0, 1, 1, 1, 2]);
}

#[test]
fn runs_of_booleans() {
    let s = Column::from(Series::new(PlSmallStr::from("b"), vec![true, true, false, true]));
    let (len, value) = encoded(&s);
    assert_eq!(lens(&len), vec![2, 1, 1]);
    let expected = BooleanChunked::from_slice(PlSmallStr::from("value"), &[true, false, true]);
    assert!(value.equals(&Series::from(expected)));
}

#[test]
fn runs_of_categoricals() {
    let dtype = DataType::Categorical(None, CategoricalOrdering::Physical);
    let s = text("c", vec!["x", "x", "y", "x"]).cast(&dtype).unwrap();
    let out = match rle(&s) {
        Ok(out) => out,
        Err(error) => panic!("{:?}", error.source),
    };
    let fields = out.struct_().unwrap().fields_as_series();
    assert_eq!(lens(&fields[0]), vec![2, 1, 1]);
    let values = fields[1].cast(&DataType::String).unwrap();
    let values: Vec<Option<&str>> = values.str().unwrap().into_iter().collect();
    assert_eq!(values, vec![Some("x"), Some("y"), Some("x")]);
    assert_eq!(ids(&s), vec![0, 0, 1, 2]);
}

#[test]
fn runs_of_structs() {
    let s = column("s", vec![Some(1), Some(1), Some(2), Some(2), Some(2)]);
    let Ok(nested) = rle(&s) else { panic!("no runs") };
    assert_eq!(nested.len(), 2);
    let Ok(again) = rle(&nested) else { panic!("no runs") };
    let fields = again.struct_().unwrap().fields_as_series();
    assert_eq!(lens(&fields[0]), vec![1, 1]);
    assert_eq!(ids(&nested), vec![0, 1]);
}

#[test]
fn a_single_row_is_one_run() {
    let s = column("one", vec![Some(7)]);
    let (len, value) = encoded(&s);
    assert_eq!(lens(&len), vec![1]);
    assert_eq!(value.get(0).unwrap(), AnyValue::Int32(7));
    assert_eq!(ids(&s), vec![0]);
}

#[test]
fn a_constant_column_is_one_run() {
    let s = column("k", vec![Some(4); 100]);
    let (len, value) = encoded(&s);
    assert_eq!(lens(&len), vec![100]);
    assert_eq!(value.len(), 1);
    assert_eq!(ids(&s), vec![0; 100]);
}

#[test]
fn a_scalar_column_is_one_run() {
    let s = Column::new_scalar(
        PlSmallStr::from("k"),
        Scalar::from(4i32),
        3,
    );
    let (len, value) = encoded(&s);
    assert_eq!(lens(&len), vec![3]);
    assert_eq!(value.get(0).unwrap(), AnyValue::Int32(4));
    assert_eq!(ids(&s), vec![0, 0, 0]);
}

#[test]
fn an_empty_column_has_no_runs() {
    let s = column("e", vec![]);
    let (len, value) = encoded(&s);
    assert_eq!(len.len(), 0);
    assert_eq!(value.len(), 0);
    assert!(ids(&s).is_empty());
}

#[test]
fn run_ids_are_flagged_as_ascending() {
    let s = column("s", vec![Some(3), Some(1), Some(1)]);
    let Ok(out) = rle_id(&s) else { panic!("no ids") };
    assert!(matches!(out.is_sorted_flag(), IsSorted::Ascending));
}

#[test]
fn decoding_undoes_encoding() {
    let rows = vec![Some(5), Some(5), None, None, None, Some(5), Some(6)];
    let s = column("s", rows.clone());
    let (len, value) = encoded(&s);
    let values: Vec<Option<i32>> = value.i32().unwrap().into_iter().collect();
    let mut decoded = Vec::new();
    for (n, v) in lens(&len).into_iter().zip(values) {
        for _ in 0..n {
            decoded.push(v);
        }
    }
    assert_eq!(decoded, rows);
}

#[test]
fn run_lengths_add_up_to_the_number_of_rows() {
    let s = column("s", vec![Some(1), Some(2), Some(2), None, Some(2)]);
    let (len, _) = encoded(&s);
    assert_eq!(lens(&len).iter().sum::<IdxSize>(), 5);
}

#[test]
fn neighbouring_runs_differ_and_are_not_empty() {
    let s = column("s", vec![Some(1), Some(1), Some(2), None, None, Some(2)]);
    let (len, value) = encoded(&s);
    assert!(lens(&len).iter().all(|n| *n >= 1));
    let values: Vec<Option<i32>> = value.i32().unwrap().into_iter().collect();
    for pair in values.windows(2) {
        assert_ne!(pair[0], pair[1]);
    }
}

#[test]
fn encoding_of_values_without_repeats_gives_them_back() {
    let s = column("s", vec![Some(1), Some(2), Some(1), Some(3)]);
    let (len, value) = encoded(&s);
    assert_eq!(lens(&len), vec![1, 1, 1, 1]);
    let values: Vec<Option<i32>> = value.i32().unwrap().into_iter().collect();
    assert_eq!(values, vec![Some(1), Some(2), Some(1), Some(3)]);
}

#[test]
fn run_ids_index_the_runs() {
    let s = column("s", vec![Some(9), Some(9), Some(8), Some(9), Some(9), Some(9)]);
    let (len, value) = encoded(&s);
    let rows: Vec<Option<i32>> = s.i32().unwrap().into_iter().collect();
    let values: Vec<Option<i32>> = value.i32().unwrap().into_iter().collect();
    let ids = ids(&s);
    for (row, id) in rows.iter().zip(&ids) {
        assert_eq!(*row, values[*id as usize]);
    }
    for (k, n) in lens(&len).into_iter().enumerate() {
        assert_eq!(ids.iter().filter(|id| **id as usize == k).count(), n as usize);
    }
    assert_eq!(*ids.last().unwrap() as usize + 1, values.len());
}

#[test]
fn run_ids_of_run_ids_are_the_run_ids() {
    for rows in [vec![Some(4), Some(4), None, Some(4)], vec![Some(4)], vec![]] {
        let s = column("s", rows);
        let Ok(once) = rle_id(&s) else { panic!("no ids") };
        let Ok(twice) = rle_id(&once) else { panic!("no ids") };
        assert_eq!(once.name(), twice.name());
        assert_eq!(once.dtype(), twice.dtype());
        assert_eq!(ids(&s), ids(&once));
        assert!(matches!(checked_rle_id(&once), Some(Ok(_))));
    }
}

#[test]
fn checked_encoding_agrees() {
    let s = column("s", vec![Some(1), Some(1), Some(2)]);
    let Some(Ok(out)) = checked_rle(&s) else { panic!("no runs") };
    assert_eq!(lens(&out.struct_().unwrap().fields_as_series()[0]), vec![2, 1]);
    let Some(Ok(out)) = checked_rle_id(&s) else { panic!("no ids") };
    let ids: Vec<IdxSize> = out.u32().unwrap().into_no_null_iter().collect();
    assert_eq!(ids, vec![0, 0, 1]);
}

#[test]
fn rows_that_cannot_be_compared_have_no_runs() {
    let s = Column::from(Series::new_empty(PlSmallStr::from("o"), &DataType::BinaryOffset));
    assert!(rle(&s).is_err());
    assert!(rle_id(&s).is_ok());
    assert!(matches!(checked_rle(&s), Some(Err(_))));
    assert!(matches!(checked_rle_id(&s), Some(Ok(_))));
}

#[test]
fn checked_encoding_opens_nested_columns() {
    let s = column("s", vec![Some(1), Some(2), Some(2)]);
    let Ok(nested) = rle(&s) else { panic!("no runs") };
    let Some(Ok(out)) = checked_rle(&nested) else { panic!("no runs") };
    assert_eq!(lens(&out.struct_().unwrap().fields_as_series()[0]), vec![1, 1]);
    assert!(matches!(checked_rle_id(&nested), Some(Ok(_))));
    let a = Series::new(PlSmallStr::from("a"), vec![1, 2]);
    let lists = Column::from(Series::new(PlSmallStr::from("l"), vec![a.clone(), a]));
    let Some(Ok(out)) = checked_rle(&lists) else { panic!("no runs") };
    assert_eq!(lens(&out.struct_().unwrap().fields_as_series()[0]), vec![2]);
}

fn nested_struct(texts: Vec<&str>, last: i32) -> Series {
    let rows = texts.len();
    let dtype = DataType::Categorical(None, CategoricalOrdering::Physical);
    let c = Series::new(PlSmallStr::from("c"), texts).cast(&dtype).unwrap();
    let one = Series::new(PlSmallStr::from("i"), vec![1i32, 2]);
    let mut lists = vec![one; rows - 1];
    lists.push(Series::new(PlSmallStr::from("i"), vec![1i32, last]));
    let l = Series::new(PlSmallStr::from("l"), lists);
    let name = PlSmallStr::from("s");
    StructChunked::from_series(name, rows, [c, l].iter()).unwrap().into_series()
}

#[test]
fn checked_encoding_opens_structs_of_lists_and_categories() {
    let s = Column::from(nested_struct(vec!["x", "x", "y", "y"], 3));
    let Some(Ok(out)) = checked_rle(&s) else { panic!("no runs") };
    assert_eq!(lens(&out.struct_().unwrap().fields_as_series()[0]), vec![2, 1, 1]);
    let Some(Ok(out)) = checked_rle_id(&s) else { panic!("no ids") };
    let ids: Vec<IdxSize> = out.u32().unwrap().into_no_null_iter().collect();
    assert_eq!(ids, vec![0, 0, 1, 2]);
}

#[test]
fn checked_encoding_opens_lists_of_structs() {
    let (len, value) = encoded(&column("s", vec![Some(1), Some(1), None]));
    let pair = StructChunked::from_series(PlSmallStr::from("p"), 2, [len, value].iter());
    let pair = pair.unwrap().into_series();
    let cut = pair.head(Some(1));
    let lists = vec![pair.clone(), pair.clone(), cut.clone(), cut, pair];
    let s = Column::from(Series::new(PlSmallStr::from("l"), lists));
    let Some(Ok(out)) = checked_rle(&s) else { panic!("no runs") };
    assert_eq!(lens(&out.struct_().unwrap().fields_as_series()[0]), vec![2, 2, 1]);
}

#[test]
fn checked_encoding_opens_repeated_values() {
    let s = Column::new_scalar(PlSmallStr::from("k"), Scalar::from(4i32), 3);
    let Some(Ok(out)) = checked_rle(&s) else { panic!("no runs") };
    assert_eq!(lens(&out.struct_().unwrap().fields_as_series()[0]), vec![3]);
    let value = Scalar::new(DataType::String, AnyValue::Null);
    let s = Column::new_scalar(PlSmallStr::from("n"), value, 2);
    let Some(Ok(out)) = checked_rle_id(&s) else { panic!("no ids") };
    let ids: Vec<IdxSize> = out.u32().unwrap().into_no_null_iter().collect();
    assert_eq!(ids, vec![0, 0]);
    // One row, and none.
    let Some(Ok(out)) = checked_rle(&column("one", vec![Some(7)])) else { panic!("no runs") };
    assert_eq!(out.len(), 1);
    let s = Column::new_empty(PlSmallStr::from("e"), &DataType::Float64);
    let Some(Ok(out)) = checked_rle(&s) else { panic!("no runs") };
    assert_eq!(out.len(), 0);
}

#[test]
fn checked_encoding_leaves_other_columns_alone() {
    // Structs with a field that polars refuses to compare.
    let field = Field::new(PlSmallStr::from("o"), DataType::BinaryOffset);
    let dtype = DataType::Struct(vec![field]);
    let s = Column::from(Series::new_empty(PlSmallStr::from("s"), &dtype));
    assert!(checked_rle(&s).is_none());
    assert!(matches!(checked_rle_id(&s), Some(Ok(_))));
    // Lists in lists, too deep to look through.
    let mut dtype = DataType::Int32;
    for _ in 0..63 {
        dtype = DataType::List(Box::new(dtype));
    }
    let s = Column::from(Series::new_empty(PlSmallStr::from("s"), &dtype));
    assert!(matches!(checked_rle(&s), Some(Ok(_))));
    let dtype = DataType::List(Box::new(dtype));
    let s = Column::from(Series::new_empty(PlSmallStr::from("s"), &dtype));
    assert!(checked_rle(&s).is_none());
    // Structs without fields.
    let dtype = DataType::Struct(vec![]);
    let s = Column::from(Series::new_empty(PlSmallStr::from("s"), &dtype));
    assert!(checked_rle(&s).is_none());
    // A value that polars cannot lay out, repeated.
    let value = Scalar::new(DataType::UInt8, AnyValue::UInt8(1));
    let s = Column::new_scalar(PlSmallStr::from("k"), value, 3);
    assert!(checked_rle(&s).is_none());
    assert!(checked_rle_id(&s).is_none());
    let s = Column::new_empty(PlSmallStr::from("e"), &DataType::UInt8);
    assert!(checked_rle(&s).is_none());
    // A value that is not of the data type.
    let value = Scalar::new(DataType::Int32, AnyValue::Boolean(true));
    let s = Column::new_scalar(PlSmallStr::from("k"), value, 3);
    assert!(checked_rle(&s).is_none());
    assert!(checked_rle_id(&s).is_none());
}

#[test]
fn runs_of_lists() {
    let a = Series::new(PlSmallStr::from("a"), vec![1, 2]);
    let b = Series::new(PlSmallStr::from("b"), vec![1, 3]);
    let s = Column::from(Series::new(PlSmallStr::from("l"), vec![a.clone(), a.clone(), b, a]));
    let (len, value) = encoded(&s);
    assert_eq!(lens(&len), vec![2, 1, 1]);
    assert_eq!(value.len(), 3);
    assert_eq!(ids(&s), vec![0, 0, 1, 2]);
}

#[test]
fn a_column_of_nulls_without_a_type_is_one_run() {
    let s = Column::from(Series::new_null(PlSmallStr::from("z"), 3));
    let (len, value) = encoded(&s);
    assert_eq!(lens(&len), vec![3]);
    assert_eq!(value.null_count(), 1);
    assert_eq!(ids(&s), vec![0, 0, 0]);
}

#[test]
fn runs_go_on_across_chunks() {
    let mut first = Series::new(PlSmallStr::from("s"), vec![1i32, 2, 2]);
    first.append(&Series::new(PlSmallStr::from("s"), vec![2i32, 3])).unwrap();
    assert_eq!(first.n_chunks(), 2);
    let s = Column::from(first);
    let (len, _) = encoded(&s);
    assert_eq!(lens(&len), vec![1, 3, 1]);
    assert_eq!(ids(&s), vec![0, 1, 1, 1, 2]);
}

#[test]
fn runs_of_binary_values() {
    let s = text("b", vec!["p", "p", "q"]).cast(&DataType::Binary).unwrap();
    let (len, _) = encoded(&s);
    assert_eq!(lens(&len), vec![2, 1]);
    assert_eq!(ids(&s), vec![0, 0, 1]);
}

#[test]
fn runs_of_a_column_named_like_a_field() {
    let s = column("len", vec![Some(1), Some(1)]);
    let (len, value) = encoded(&s);
    assert_eq!(lens(&len), vec![2]);
    assert_eq!(value.len(), 1);
}
