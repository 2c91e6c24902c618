//! The outside types that the library carries. Each is opaque to Verus: what the
//! library knows of a value is what the contracts in [`crate::column`],
//! [`crate::logical`] and [`crate::expression`] say of it.
use polars_core::error::PolarsError;
use polars_core::prelude::{Column, DataType};
use polars_expr::prelude::PhysicalIoHelper;
use polars_plan::prelude::expr_ir::ExprIR;
use polars_plan::prelude::{AExpr, Arena, Expr, Node, IR};
use polars_schema::Schema;
use std::path::PathBuf;
use vstd::prelude::*;

verus! {

/// `polars_core`'s column: a named sequence of values of one data type.
#[verifier::external_type_specification]
#[verifier::external_body]
pub struct ExColumn(Column);

/// The error that polars' own functions return. Polars can be told to panic in place of
/// making an error; what the library says of errors holds where it is not.
#[verifier::external_type_specification]
#[verifier::external_body]
pub struct ExPolarsError(PolarsError);

/// The data type of a column.
#[verifier::external_type_specification]
#[verifier::external_body]
pub struct ExDataType(DataType);

/// An ordered map from column names to data types.
#[verifier::external_type_specification]
#[verifier::external_body]
#[verifier::reject_recursive_types(D)]
pub struct ExSchema<D>(Schema<D>);

/// A node of a logical plan.
#[verifier::external_type_specification]
#[verifier::external_body]
pub struct ExIR(IR);

/// A node of an expression.
#[verifier::external_type_specification]
#[verifier::external_body]
pub struct ExAExpr(AExpr);

/// The store that plan nodes and expression nodes live in.
#[verifier::external_type_specification]
#[verifier::external_body]
#[verifier::reject_recursive_types(T)]
pub struct ExArena<T>(Arena<T>);

/// The place of a node in its arena.
#[verifier::external_type_specification]
#[verifier::external_body]
pub struct ExNode(Node);

/// An expression of a plan node: a node of the expression arena and an output name.
#[verifier::external_type_specification]
#[verifier::external_body]
pub struct ExExprIR(ExprIR);

/// An expression as the user wrote it.
#[verifier::external_type_specification]
#[verifier::external_body]
pub struct ExExpr(Expr);

/// The struct of `polars_expr` that holds a compiled expression.
#[verifier::external_type_specification]
#[verifier::external_body]
pub struct ExPhysicalIoHelper(PhysicalIoHelper);

/// The path of a file.
#[verifier::external_type_specification]
#[verifier::external_body]
pub struct ExPathBuf(PathBuf);

} // verus!
