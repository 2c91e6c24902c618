//! What the library knows of `polars_core`'s columns.
//!
//! A column is modelled by its name, its data type and its rows. Rows are numbers:
//! within one data type two rows carry the same number exactly where polars'
//! missing-aware comparison finds them equal. Of plain values, a null equals a null, a
//! NaN equals a NaN and `0.0` equals `-0.0`. In a column of structs, two rows are equal
//! where both are null or neither is, and their fields are equal, also those that a null
//! hides. A row of an index column that is not null carries its own value.
use polars_core::error::PolarsError;
use polars_core::prelude::{
    BooleanChunked, ChunkCompareEq, Column, DataType, IdxCa, IdxSize, IntoColumn, NewChunkedArray,
    PlSmallStr, StructChunked, IDX_DTYPE,
};
use polars_core::series::IsSorted;
use vstd::prelude::*;

verus! {

/// The variants of a data type.
#[derive(Clone, Copy, PartialEq, Eq, Structural)]
pub enum TypeKind {
    Boolean,
    UInt8,
    UInt16,
    UInt32,
    UInt64,
    Int8,
    Int16,
    Int32,
    Int64,
    Int128,
    Float32,
    Float64,
    String,
    Binary,
    /// Bytes in the layout that polars keeps for its own use.
    BinaryOffset,
    Date,
    Datetime,
    Duration,
    Time,
    /// Nulls of no type.
    Null,
    Categorical,
    Enum,
    List,
    Struct,
    Unknown,
}

/// How deep a data type may be nested for the library to look through it.
pub const MAX_NESTING: usize = 64;

/// Whether a kind is that of numbers.
pub open spec fn is_number(kind: TypeKind) -> bool {
    match kind {
        TypeKind::UInt8
        | TypeKind::UInt16
        | TypeKind::UInt32
        | TypeKind::UInt64
        | TypeKind::Int8
        | TypeKind::Int16
        | TypeKind::Int32
        | TypeKind::Int64
        | TypeKind::Int128
        | TypeKind::Float32
        | TypeKind::Float64 => true,
        _ => false,
    }
}

/// Whether a kind is that of dates, times and spans of time.
pub open spec fn is_time(kind: TypeKind) -> bool {
    kind is Date || kind is Datetime || kind is Duration || kind is Time
}

/// Whether rows of a kind are plain values of a type that polars is built with.
pub open spec fn is_plain_kind(kind: TypeKind) -> bool {
    match kind {
        TypeKind::Boolean
        | TypeKind::UInt32
        | TypeKind::UInt64
        | TypeKind::Int32
        | TypeKind::Int64
        | TypeKind::Float32
        | TypeKind::Float64
        | TypeKind::String
        | TypeKind::Binary
        | TypeKind::Null => true,
        _ => false,
    }
}

/// Whether rows of a kind are categories.
pub open spec fn is_category(kind: TypeKind) -> bool {
    kind is Categorical || kind is Enum
}

/// Whether rows are plain values or categories, down to the last list and struct; there are
/// no more than so many levels of them, and every struct has a field.
pub open spec fn plain_rows(dtype: DataType, levels: nat) -> bool
    decreases levels,
{
    levels > 0 && {
        ||| is_plain_kind(dtype_kind(dtype))
        ||| is_category(dtype_kind(dtype))
        ||| dtype_inner(dtype).len() > 0 && forall|i: int|
            #![trigger dtype_inner(dtype)[i]]
            0 <= i < dtype_inner(dtype).len() ==> plain_rows(
                dtype_inner(dtype)[i],
                (levels - 1) as nat,
            )
    }
}

/// Whether a value of one kind is a value of another kind as it stands: it is plain, and a
/// null or of that kind.
pub open spec fn fits(value: TypeKind, kind: TypeKind) -> bool {
    is_plain_kind(kind) && (value is Null || value == kind)
}

/// One field of a struct column.
pub struct FieldView {
    pub name: Seq<char>,
    pub dtype: int,
    pub values: Seq<int>,
}

/// The rows of a column, one number each.
pub uninterp spec fn column_values(column: Column) -> Seq<int>;

/// The name of a column.
pub uninterp spec fn column_name(column: Column) -> Seq<char>;

/// A number for the data type of a column. For a categorical type it stands for the
/// mapping of its categories too, so columns that share it can be appended to each
/// other. The index type has the number of [`idx_dtype`].
pub uninterp spec fn column_dtype(column: Column) -> int;

/// Whether polars compares rows of this data type.
pub uninterp spec fn comparable_dtype(dtype: int) -> bool;

/// Whether polars answers a comparison of rows of this data type with an error. There are
/// data types that it neither compares nor refuses: it panics on structs with a field that
/// it refuses.
pub uninterp spec fn refused_dtype(dtype: int) -> bool;

/// The errors with which polars may refuse to compare two columns of this data type and of
/// these names. The text of an error follows from them, and its form from the environment.
pub uninterp spec fn comparison_errors(
    dtype: int,
    left: Seq<char>,
    right: Seq<char>,
) -> Set<PolarsError>;

/// Whether polars can lay out the rows of a column, and any stretch of them, as a series. It
/// cannot where a column repeats a value that is not of the column's data type, or one of a
/// data type that polars was built without.
pub uninterp spec fn materializes(column: Column) -> bool;

/// Whether a column is laid out as a series.
pub uninterp spec fn series_column(column: Column) -> bool;

/// The data type of the value that a column repeats, if it does so.
pub uninterp spec fn repeated_type(column: Column) -> Option<DataType>;

/// The data type of a column.
pub uninterp spec fn column_type(column: Column) -> DataType;

/// The number of a data type.
pub uninterp spec fn dtype_number(dtype: DataType) -> int;

/// The variant of a data type.
pub uninterp spec fn dtype_kind(dtype: DataType) -> TypeKind;

/// The data types inside a list or a struct.
pub uninterp spec fn dtype_inner(dtype: DataType) -> Seq<DataType>;

/// The number of null rows of a column.
pub uninterp spec fn column_null_count(column: Column) -> int;

/// The fields of a struct column, in order.
pub uninterp spec fn column_fields(column: Column) -> Seq<FieldView>;

/// Whether the column carries the flag that its rows ascend.
pub uninterp spec fn column_flagged_ascending(column: Column) -> bool;

/// The number of the index type, `IDX_DTYPE`.
pub open spec fn idx_dtype() -> int {
    0
}

/// A column holds fewer rows than this: polars panics on a longer one.
pub open spec fn row_limit() -> nat {
    IdxSize::MAX as nat
}

/// Whether polars comes back from comparing rows of a column with each other, with a result
/// or an error.
pub open spec fn compares(column: Column) -> bool {
    materializes(column) && (comparable_dtype(column_dtype(column)) || refused_dtype(
        column_dtype(column),
    ))
}

/// Whether it is known of a column that polars comes back from comparing its rows.
pub open spec fn known_to_compare(column: Column) -> bool {
    let dtype = column_type(column);
    ||| series_column(column) && (plain_rows(dtype, MAX_NESTING as nat) || dtype_kind(
        dtype,
    ) is BinaryOffset)
    ||| (repeated_type(column) matches Some(value) && fits(dtype_kind(value), dtype_kind(dtype)))
}

/// The rows `offset..offset + len`, cut to the rows that there are.
pub open spec fn sliced(values: Seq<int>, offset: int, len: int) -> Seq<int> {
    let from = if offset < values.len() { offset } else { values.len() as int };
    let to = if offset + len < values.len() { offset + len } else { values.len() as int };
    values.subrange(from, to)
}

/// The rows at which the mask is set.
pub open spec fn selected(values: Seq<int>, mask: Seq<bool>) -> Seq<int>
    decreases mask.len(),
{
    if mask.len() == 0 || values.len() != mask.len() {
        Seq::empty()
    } else {
        let rest = selected(values.drop_last(), mask.drop_last());
        if mask.last() {
            rest.push(values.last())
        } else {
            rest
        }
    }
}

/// A field of the given length: a field of one row is repeated.
pub open spec fn broadcast(values: Seq<int>, length: nat) -> Seq<int> {
    if values.len() == length {
        values
    } else {
        Seq::new(length, |i: int| values[0])
    }
}

/// The field that a column becomes in a struct of `length` rows.
pub open spec fn field_of(column: Column, length: nat) -> FieldView {
    FieldView {
        name: column_name(column),
        dtype: column_dtype(column),
        values: broadcast(column_values(column), length),
    }
}

/// Whether columns can be the fields of a struct of `length` rows.
pub open spec fn fields_fit(columns: Seq<Column>, length: nat) -> bool {
    &&& forall|i: int|
        #![trigger columns[i]]
        0 <= i < columns.len() ==> column_values(columns[i]).len() == length || column_values(
            columns[i],
        ).len() == 1
    &&& forall|i: int, j: int|
        #![trigger columns[i], columns[j]]
        0 <= i < j < columns.len() ==> column_name(columns[i]) != column_name(columns[j])
}

/// `Column::len`: the number of rows.
#[verifier::external_body]
pub(crate) fn column_len(column: &Column) -> (r: usize)
    ensures
        r == column_values(*column).len(),
{
    column.len()
}

/// Tells a column that is laid out as a series from one that repeats a value or values.
#[verifier::external_body]
fn is_series(column: &Column) -> (r: bool)
    ensures
        r == series_column(*column),
        r ==> materializes(*column),
{
    matches!(column, Column::Series(_))
}

/// `AnyValue::dtype` of the value that a column repeats. Polars can lay out a plain value as
/// what it is, and a null as any plain value.
#[verifier::external_body]
fn value_type(column: &Column) -> (r: Option<DataType>)
    ensures
        r == repeated_type(*column),
        r matches Some(value) && fits(dtype_kind(value), dtype_kind(column_type(*column)))
            ==> materializes(*column),
{
    match column {
        Column::Scalar(repeated) => Some(repeated.scalar().value().dtype()),
        Column::Series(_) | Column::Partitioned(_) => None,
    }
}

/// `Column::dtype`.
#[verifier::external_body]
fn type_of(column: &Column) -> (r: DataType)
    ensures
        r == column_type(*column),
        dtype_number(r) == column_dtype(*column),
{
    column.dtype().clone()
}

/// Reads the data types of numbers. Polars compares those that it is built with.
#[verifier::external_body]
fn number_kind(dtype: &DataType) -> (r: Option<TypeKind>)
    ensures
        r is Some <==> is_number(dtype_kind(*dtype)),
        r matches Some(kind) ==> kind == dtype_kind(*dtype) && (is_plain_kind(kind) ==> comparable_dtype(
            dtype_number(*dtype),
        )),
{
    match dtype {
        DataType::UInt8 => Some(TypeKind::UInt8),
        DataType::UInt16 => Some(TypeKind::UInt16),
        DataType::UInt32 => Some(TypeKind::UInt32),
        DataType::UInt64 => Some(TypeKind::UInt64),
        DataType::Int8 => Some(TypeKind::Int8),
        DataType::Int16 => Some(TypeKind::Int16),
        DataType::Int32 => Some(TypeKind::Int32),
        DataType::Int64 => Some(TypeKind::Int64),
        DataType::Int128 => Some(TypeKind::Int128),
        DataType::Float32 => Some(TypeKind::Float32),
        DataType::Float64 => Some(TypeKind::Float64),
        _ => None,
    }
}

/// Reads the data types of dates, times and spans of time.
#[verifier::external_body]
fn time_kind(dtype: &DataType) -> (r: Option<TypeKind>)
    ensures
        r is Some <==> is_time(dtype_kind(*dtype)),
        r matches Some(kind) ==> kind == dtype_kind(*dtype),
{
    match dtype {
        DataType::Date => Some(TypeKind::Date),
        DataType::Datetime(..) => Some(TypeKind::Datetime),
        DataType::Duration(_) => Some(TypeKind::Duration),
        DataType::Time => Some(TypeKind::Time),
        _ => None,
    }
}

/// Reads the other data types. Polars compares plain values and categories, and refuses to
/// compare bytes in its own layout.
#[verifier::external_body]
fn other_kind(dtype: &DataType) -> (r: TypeKind)
    requires
        !is_number(dtype_kind(*dtype)),
        !is_time(dtype_kind(*dtype)),
    ensures
        r == dtype_kind(*dtype),
        is_plain_kind(r) || is_category(r) ==> comparable_dtype(dtype_number(*dtype)),
        r is BinaryOffset ==> refused_dtype(dtype_number(*dtype)),
{
    match dtype {
        DataType::Boolean => TypeKind::Boolean,
        DataType::String => TypeKind::String,
        DataType::Binary => TypeKind::Binary,
        DataType::BinaryOffset => TypeKind::BinaryOffset,
        DataType::Null => TypeKind::Null,
        DataType::Categorical(..) => TypeKind::Categorical,
        DataType::Enum(..) => TypeKind::Enum,
        DataType::List(_) => TypeKind::List,
        DataType::Struct(_) => TypeKind::Struct,
        DataType::UInt8 | DataType::UInt16 | DataType::UInt32 | DataType::UInt64 | DataType::Int8
        | DataType::Int16 | DataType::Int32 | DataType::Int64 | DataType::Int128
        | DataType::Float32 | DataType::Float64 | DataType::Date | DataType::Datetime(..)
        | DataType::Duration(_) | DataType::Time | DataType::Unknown(_) => TypeKind::Unknown,
    }
}

/// Reads the data types inside a list or a struct; other data types have none. Polars
/// compares lists of rows that it compares, and structs of fields that it compares.
#[verifier::external_body]
fn inner_types(dtype: &DataType) -> (r: Vec<DataType>)
    ensures
        r@ == dtype_inner(*dtype),
        r@.len() > 0 && (forall|i: int|
            #![trigger r@[i]]
            0 <= i < r@.len() ==> comparable_dtype(dtype_number(r@[i]))) ==> comparable_dtype(
            dtype_number(*dtype),
        ),
{
    match dtype {
        DataType::List(inner) => vec![(**inner).clone()],
        DataType::Struct(fields) => fields.iter().map(|field| field.dtype().clone()).collect(),
        _ => Vec::new(),
    }
}

/// `Column::slice` from a row that counts from the start: the rows are cut to those
/// that there are; name and data type stay.
#[verifier::external_body]
pub(crate) fn column_slice(column: &Column, offset: i64, len: usize) -> (r: Column)
    requires
        offset >= 0,
        materializes(*column),
        column_values(*column).len() < row_limit(),
    ensures
        column_values(r) == sliced(column_values(*column), offset as int, len as int),
        column_name(r) == column_name(*column),
        column_dtype(r) == column_dtype(*column),
        materializes(r),
{
    column.slice(offset, len)
}

/// `Column::head` with a length: the first rows; name and data type stay.
#[verifier::external_body]
pub(crate) fn column_head(column: &Column, len: usize) -> (r: Column)
    requires
        materializes(*column),
        column_values(*column).len() < row_limit(),
    ensures
        column_values(r) == sliced(column_values(*column), 0, len as int),
        column_name(r) == column_name(*column),
        column_dtype(r) == column_dtype(*column),
        materializes(r),
{
    column.head(Some(len))
}

/// `Series::not_equal_missing` on two columns of one data type and one length: where polars
/// refuses the data type it gives an error, and otherwise it says of each row whether the
/// two differ, where a null differs from a value and not from a null. The mask has no nulls.
#[verifier::external_body]
pub(crate) fn not_equal_missing(left: &Column, right: &Column) -> (r: Result<Vec<bool>, PolarsError>)
    requires
        compares(*left),
        compares(*right),
        column_dtype(*left) == column_dtype(*right),
        column_values(*left).len() == column_values(*right).len(),
        column_values(*left).len() < row_limit(),
    ensures
        r is Ok <==> comparable_dtype(column_dtype(*left)),
        r matches Ok(mask) ==> mask@ == Seq::new(
            column_values(*left).len(),
            |i: int| column_values(*left)[i] != column_values(*right)[i],
        ),
        r matches Err(error) ==> comparison_errors(
            column_dtype(*left),
            column_name(*left),
            column_name(*right),
        ).contains(error),
{
    let mask = left.as_materialized_series().not_equal_missing(right.as_materialized_series())?;
    Ok(mask.into_no_null_iter().collect())
}

/// `Column::new_empty` with the data type of a column, a comparable one: no rows.
#[verifier::external_body]
pub(crate) fn empty_like(name: &'static str, column: &Column) -> (r: Column)
    requires
        materializes(*column),
        comparable_dtype(column_dtype(*column)),
    ensures
        column_values(r) == Seq::<int>::empty(),
        column_name(r) == name@,
        column_dtype(r) == column_dtype(*column),
        materializes(r),
{
    Column::new_empty(PlSmallStr::from_static(name), column.dtype())
}

/// `Column::new_empty` with the name of a column and the index type, which polars can
/// compare: no rows.
#[verifier::external_body]
pub(crate) fn empty_idx_named(column: &Column) -> (r: Column)
    ensures
        column_values(r) == Seq::<int>::empty(),
        column_name(r) == column_name(*column),
        column_dtype(r) == idx_dtype(),
        comparable_dtype(column_dtype(r)),
        materializes(r),
{
    Column::new_empty(column.name().clone(), &IDX_DTYPE)
}

/// `Column::filter` with a mask of the column's length, without nulls: keeps the rows
/// at which the mask is set; name and data type stay.
#[verifier::external_body]
pub(crate) fn column_filter(column: &Column, mask: &Vec<bool>) -> (r: Result<Column, PolarsError>)
    requires
        materializes(*column),
        column_values(*column).len() == mask@.len(),
        column_values(*column).len() < row_limit(),
    ensures
        r is Ok,
        r matches Ok(kept) ==> {
            &&& column_values(kept) == selected(column_values(*column), mask@)
            &&& column_name(kept) == column_name(*column)
            &&& column_dtype(kept) == column_dtype(*column)
            &&& materializes(kept)
        },
{
    column.filter(&BooleanChunked::from_slice(PlSmallStr::EMPTY, mask))
}

/// `Column::extend` with rows of the same, comparable data type: appends them; name
/// and data type stay.
#[verifier::external_body]
pub(crate) fn column_extend(column: &mut Column, rows: &Column) -> (r: Result<(), PolarsError>)
    requires
        materializes(*old(column)),
        materializes(*rows),
        column_dtype(*old(column)) == column_dtype(*rows),
        comparable_dtype(column_dtype(*rows)),
        column_values(*old(column)).len() + column_values(*rows).len() < row_limit(),
    ensures
        r is Ok,
        column_values(*final(column)) == column_values(*old(column)) + column_values(*rows),
        column_name(*final(column)) == column_name(*old(column)),
        column_dtype(*final(column)) == column_dtype(*old(column)),
        materializes(*final(column)),
{
    column.extend(rows).map(|_| ())
}

/// `Series::from_vec` with index values: a column that holds them, of the index type,
/// which polars can compare.
#[verifier::external_body]
pub(crate) fn idx_column(name: &'static str, values: Vec<IdxSize>) -> (r: Column)
    requires
        values@.len() < row_limit(),
    ensures
        column_values(r) == values@.map_values(|v: IdxSize| v as int),
        column_name(r) == name@,
        column_dtype(r) == idx_dtype(),
        comparable_dtype(column_dtype(r)),
        materializes(r),
{
    IdxCa::from_vec(PlSmallStr::from_static(name), values).into_column()
}

/// `IdxCa::from_vec` under the name of a column, with the flag that its rows ascend: a column
/// that holds the values, of the index type, which polars can compare.
#[verifier::external_body]
pub(crate) fn ascending_idx_column(column: &Column, values: Vec<IdxSize>) -> (r: Column)
    requires
        values@.len() < row_limit(),
        forall|i: int, j: int| 0 <= i <= j < values@.len() ==> values@[i] <= values@[j],
    ensures
        column_values(r) == values@.map_values(|v: IdxSize| v as int),
        column_name(r) == column_name(*column),
        column_dtype(r) == idx_dtype(),
        comparable_dtype(column_dtype(r)),
        materializes(r),
        column_flagged_ascending(r),
{
    IdxCa::from_vec(column.name().clone(), values).with_sorted_flag(IsSorted::Ascending).into_column()
}

/// `StructChunked::from_columns` under the name of a column: it fails where a field
/// has neither `length` rows nor one, or where two fields share a name; otherwise the
/// struct has the columns as its fields, one row of a field repeated where needed, and no
/// row of the struct itself is null.
#[verifier::external_body]
pub(crate) fn struct_column(named: &Column, length: usize, fields: &Vec<Column>) -> (r: Result<
    Column,
    PolarsError,
>)
    requires
        length < row_limit(),
        forall|i: int|
            #![trigger fields@[i]]
            0 <= i < fields@.len() ==> materializes(fields@[i]) && comparable_dtype(
                column_dtype(fields@[i]),
            ) && column_values(fields@[i]).len() < row_limit(),
    ensures
        r is Ok <==> fields_fit(fields@, length as nat),
        r matches Ok(column) ==> {
            &&& column_fields(column) == fields@.map_values(|f: Column| field_of(f, length as nat))
            &&& column_values(column).len() == length
            &&& column_null_count(column) == 0
            &&& column_name(column) == column_name(*named)
        },
{
    Ok(StructChunked::from_columns(named.name().clone(), length, fields)?.into_column())
}

/// The variant of a data type.
fn kind_of(dtype: &DataType) -> (r: TypeKind)
    ensures
        r == dtype_kind(*dtype),
        is_plain_kind(r) || is_category(r) ==> comparable_dtype(dtype_number(*dtype)),
        r is BinaryOffset ==> refused_dtype(dtype_number(*dtype)),
{
    if let Some(kind) = number_kind(dtype) {
        return kind;
    }
    if let Some(kind) = time_kind(dtype) {
        return kind;
    }
    other_kind(dtype)
}

/// Whether rows of a kind are plain values of a type that polars is built with.
fn kind_is_plain(kind: TypeKind) -> (r: bool)
    ensures
        r == is_plain_kind(kind),
{
    matches!(
        kind,
        TypeKind::Boolean
            | TypeKind::UInt32
            | TypeKind::UInt64
            | TypeKind::Int32
            | TypeKind::Int64
            | TypeKind::Float32
            | TypeKind::Float64
            | TypeKind::String
            | TypeKind::Binary
            | TypeKind::Null
    )
}

/// Whether rows are plain values or categories, down to the last list and struct; there are
/// no more than so many levels of them, and every struct has a field.
fn has_plain_rows(dtype: &DataType, levels: usize) -> (r: bool)
    ensures
        r == plain_rows(*dtype, levels as nat),
        r ==> comparable_dtype(dtype_number(*dtype)),
    decreases levels,
{
    if levels == 0 {
        return false;
    }
    let kind = kind_of(dtype);
    if kind_is_plain(kind) || matches!(kind, TypeKind::Categorical | TypeKind::Enum) {
        return true;
    }
    let inner = inner_types(dtype);
    let mut i: usize = 0;
    while i < inner.len()
        invariant
            i <= inner@.len(),
            inner@ == dtype_inner(*dtype),
            levels > 0,
            !is_plain_kind(dtype_kind(*dtype)) && !is_category(dtype_kind(*dtype)),
            forall|j: int|
                #![trigger inner@[j]]
                0 <= j < i ==> plain_rows(inner@[j], (levels - 1) as nat) && comparable_dtype(
                    dtype_number(inner@[j]),
                ),
        decreases inner@.len() - i,
    {
        if !has_plain_rows(&inner[i], levels - 1) {
            assert(!plain_rows(dtype_inner(*dtype)[i as int], (levels - 1) as nat));
            return false;
        }
        i += 1;
    }
    inner.len() > 0
}

/// Whether it is known of a column that polars comes back from comparing its rows.
pub fn is_known_to_compare(column: &Column) -> (r: bool)
    ensures
        r == known_to_compare(*column),
        r ==> compares(*column),
{
    let dtype = type_of(column);
    let kind = kind_of(&dtype);
    if is_series(column) && (matches!(kind, TypeKind::BinaryOffset) || has_plain_rows(
        &dtype,
        MAX_NESTING,
    )) {
        return true;
    }
    match value_type(column) {
        Some(value) => {
            let value = kind_of(&value);
            kind_is_plain(kind) && (matches!(value, TypeKind::Null) || value == kind)
        },
        None => false,
    }
}

} // verus!
