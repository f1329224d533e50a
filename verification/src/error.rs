//! Typed failures surfaced by every component of the engine.

use vstd::prelude::*;

verus! {

use crate::schema::ColumnType;

/// A malformed schema or a batch whose column types do not match it.
#[derive(Clone, Copy, PartialEq, Eq, Structural, Debug)]
pub enum SchemaError {
    /// The column at this index repeats the name of an earlier column.
    DuplicateName(usize),
    /// The column at this index has a type the engine does not support
    /// (a vector wider than the engine's limit, or a second vector column).
    UnsupportedType(usize),
    /// The column at this index is a vector column of dimension zero.
    ZeroDimVector(usize),
    /// A batch value's type does not match the schema column's type.
    SchemaMismatch { column: usize, expected: ColumnType, actual: ColumnType },
}

/// A batch that conforms to the schema's types but cannot be encoded.
#[derive(Clone, Copy, PartialEq, Eq, Structural, Debug)]
pub enum EncodingError {
    /// A vector value whose length differs from the column's dimension.
    WrongVectorLength { column: usize, row: usize },
}

/// An unparseable or type-invalid filter expression.
#[derive(Clone, Copy, PartialEq, Eq, Structural, Debug)]
pub enum PredicateError {
    /// The text is not a sentence of the predicate grammar; the payload is
    /// the byte offset at which parsing failed.
    SyntaxError(usize),
    /// A comparison names a column the schema does not have.
    UnknownColumn,
    /// A comparison's literal does not type-match its column.
    TypeMismatch,
}

/// A vector query that cannot be run against the table.
#[derive(Clone, Copy, PartialEq, Eq, Structural, Debug)]
pub enum IndexError {
    /// The query vector's length differs from the schema's vector dimension.
    DimensionMismatch,
}

/// Any failure of a table- or database-level operation.
#[derive(Clone, Copy, PartialEq, Eq, Structural, Debug)]
pub enum Error {
    Schema(SchemaError),
    Encoding(EncodingError),
    Predicate(PredicateError),
    Index(IndexError),
    /// The named table (or database) does not exist.
    NotFound,
    /// A table of that name already exists in the database.
    AlreadyExists,
    /// The handle's table has been dropped; no further operation is accepted.
    TableDropped,
}

} // verus!
