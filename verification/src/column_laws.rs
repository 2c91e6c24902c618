//! Of which columns it is known that polars comes back from comparing their rows.
use crate::column::{
    column_type, dtype_inner, dtype_kind, known_to_compare, plain_rows, repeated_type, row_limit,
    series_column, TypeKind, MAX_NESTING,
};
use polars_core::prelude::{Column, DataType, IdxSize};
use vstd::prelude::*;

verus! {

/// A column may hold any number of rows below the greatest index, and no more.
pub proof fn law_row_limit(rows: nat)
    ensures
        rows < row_limit() <==> rows + 1 <= IdxSize::MAX,
{
}

/// Rows are plain exactly where a level is left for them and they are booleans, numbers of a
/// type that polars is built with, texts, bytes, nulls or categories, or else lists or structs
/// with something inside, all of it plain one level further down.
pub proof fn law_plain_rows(dtype: DataType, levels: nat)
    ensures
        plain_rows(dtype, 0) == false,
        plain_rows(dtype, levels + 1) <==> {
            let kind = dtype_kind(dtype);
            ||| kind == TypeKind::Boolean
            ||| kind == TypeKind::UInt32
            ||| kind == TypeKind::UInt64
            ||| kind == TypeKind::Int32
            ||| kind == TypeKind::Int64
            ||| kind == TypeKind::Float32
            ||| kind == TypeKind::Float64
            ||| kind == TypeKind::String
            ||| kind == TypeKind::Binary
            ||| kind == TypeKind::Null
            ||| kind == TypeKind::Categorical
            ||| kind == TypeKind::Enum
            ||| dtype_inner(dtype).len() > 0 && forall|i: int|
                #![trigger dtype_inner(dtype)[i]]
                0 <= i < dtype_inner(dtype).len() ==> plain_rows(dtype_inner(dtype)[i], levels)
        },
{
    assert((levels + 1 - 1) as nat == levels);
}

/// Rows that are plain within some levels are plain within more of them.
pub proof fn law_more_levels(dtype: DataType, fewer: nat, more: nat)
    requires
        plain_rows(dtype, fewer),
        fewer <= more,
    ensures
        plain_rows(dtype, more),
    decreases fewer,
{
    let inner = dtype_inner(dtype);
    assert forall|i: int|
        #![trigger dtype_inner(dtype)[i]]
        0 <= i < inner.len() && plain_rows(inner[i], (fewer - 1) as nat) implies plain_rows(
        inner[i],
        (more - 1) as nat,
    ) by {
        law_more_levels(inner[i], (fewer - 1) as nat, (more - 1) as nat);
    }
}

proof fn lemma_nested(chain: Seq<DataType>, levels: nat)
    requires
        chain.len() > 0,
        dtype_kind(chain[chain.len() - 1]) is Int64,
        forall|k: int|
            #![trigger chain[k]]
            0 <= k < chain.len() - 1 ==> dtype_kind(chain[k]) is List && dtype_inner(chain[k])
                == seq![chain[k + 1]],
    ensures
        plain_rows(chain[0], levels) <==> levels >= chain.len(),
    decreases chain.len(),
{
    if chain.len() > 1 {
        let rest = chain.subrange(1, chain.len() as int);
        assert forall|k: int| #![trigger rest[k]] 0 <= k < rest.len() - 1 implies dtype_kind(
            rest[k],
        ) is List && dtype_inner(rest[k]) == seq![rest[k + 1]] by {
            assert(rest[k] == chain[k + 1]);
        }
        assert(dtype_inner(chain[0]) == seq![chain[1]]);
        assert(dtype_inner(chain[0])[0] == rest[0]);
        if levels > 0 {
            lemma_nested(rest, (levels - 1) as nat);
        }
    }
}

/// A series of lists of lists of numbers, and so on, is known to compare exactly where there
/// are no more than sixty-four data types from the outermost to the innermost.
pub proof fn law_nested_lists(column: Column, chain: Seq<DataType>)
    requires
        series_column(column),
        repeated_type(column) is None,
        chain.len() > 0,
        column_type(column) == chain[0],
        dtype_kind(chain[chain.len() - 1]) is Int64,
        forall|k: int|
            #![trigger chain[k]]
            0 <= k < chain.len() - 1 ==> dtype_kind(chain[k]) is List && dtype_inner(chain[k])
                == seq![chain[k + 1]],
    ensures
        known_to_compare(column) <==> chain.len() <= 64,
{
    lemma_nested(chain, MAX_NESTING as nat);
    let _ = chain[0];
}

/// Of a series it is known that polars comes back from comparing its rows where they are
/// plain, or bytes in polars' own layout, and of no other one.
pub proof fn law_known_series(column: Column)
    requires
        series_column(column),
        repeated_type(column) is None,
    ensures
        known_to_compare(column) <==> {
            let dtype = column_type(column);
            let kind = dtype_kind(dtype);
            ||| kind == TypeKind::BinaryOffset
            ||| kind == TypeKind::Boolean
            ||| kind == TypeKind::UInt32
            ||| kind == TypeKind::UInt64
            ||| kind == TypeKind::Int32
            ||| kind == TypeKind::Int64
            ||| kind == TypeKind::Float32
            ||| kind == TypeKind::Float64
            ||| kind == TypeKind::String
            ||| kind == TypeKind::Binary
            ||| kind == TypeKind::Null
            ||| kind == TypeKind::Categorical
            ||| kind == TypeKind::Enum
            ||| dtype_inner(dtype).len() > 0 && forall|i: int|
                #![trigger dtype_inner(dtype)[i]]
                0 <= i < dtype_inner(dtype).len() ==> plain_rows(dtype_inner(dtype)[i], 63)
        },
{
    law_plain_rows(column_type(column), 63);
}

/// Of a column that repeats a value it is known exactly where the data type of the column is
/// a plain one, and the value is a null or of that data type.
pub proof fn law_known_repetitions(column: Column, value: DataType)
    requires
        !series_column(column),
        repeated_type(column) == Some(value),
    ensures
        known_to_compare(column) <==> {
            let kind = dtype_kind(column_type(column));
            &&& dtype_kind(value) == TypeKind::Null || dtype_kind(value) == kind
            &&& {
                ||| kind == TypeKind::Boolean
                ||| kind == TypeKind::UInt32
                ||| kind == TypeKind::UInt64
                ||| kind == TypeKind::Int32
                ||| kind == TypeKind::Int64
                ||| kind == TypeKind::Float32
                ||| kind == TypeKind::Float64
                ||| kind == TypeKind::String
                ||| kind == TypeKind::Binary
                ||| kind == TypeKind::Null
            }
        },
{
}

/// Of a column that is neither a series nor repeats one value it is not known.
pub proof fn law_other_columns_are_not_known(column: Column)
    requires
        !series_column(column),
        repeated_type(column) is None,
    ensures
        !known_to_compare(column),
{
}

} // verus!
