use vstd::prelude::*;

verus! {

/// The primitive type of a column.
#[derive(Clone, Copy, Debug, PartialEq, Eq, Structural)]
pub enum DataType {
    Int64,
    Float64,
    Utf8,
    Boolean,
    TimestampMillis,
}

/// One cell of a column. A 64-bit float is held as its IEEE-754 bit pattern;
/// a timestamp as milliseconds since the Unix epoch.
#[derive(Clone, Debug, PartialEq)]
pub enum Value {
    Null,
    Int64(i64),
    Float64(u64),
    Utf8(String),
    Boolean(bool),
    TimestampMillis(i64),
}

/// The failures that the table operations report.
#[derive(Clone, Copy, Debug, PartialEq, Eq, Structural)]
pub enum FrameError {
    /// No schema entry carries the requested name.
    UnknownColumn,
    /// Column counts or lengths disagree, or batches with different schemas are combined.
    SchemaMismatch,
    /// A value of type `from` cannot be converted to type `to`.
    CastError { from: DataType, to: DataType },
    /// A query literal does not parse as the column's type.
    InvalidLiteral,
    /// The query operator is not defined for the column's type.
    UnsupportedOperator,
    /// The query names a column whose type has no comparison.
    UnsupportedColumnType,
    /// The query is not three whitespace-separated tokens.
    MalformedExpression,
}

/// A schema entry: name, type and whether nulls are allowed.
#[derive(Clone, Debug, PartialEq)]
pub struct Field {
    pub name: String,
    pub dtype: DataType,
    pub nullable: bool,
}

/// Whether a cell may stand in a column of the given type (null fits every type).
pub open spec fn fits(v: Value, t: DataType) -> bool {
    match v {
        Value::Null => true,
        Value::Int64(_) => t == DataType::Int64,
        Value::Float64(_) => t == DataType::Float64,
        Value::Utf8(_) => t == DataType::Utf8,
        Value::Boolean(_) => t == DataType::Boolean,
        Value::TimestampMillis(_) => t == DataType::TimestampMillis,
    }
}

/// Whether a cell may stand in a column of the given type.
pub fn value_fits(v: &Value, t: DataType) -> (r: bool)
    ensures
        r == fits(*v, t),
{
    match v {
        Value::Null => true,
        Value::Int64(_) => t == DataType::Int64,
        Value::Float64(_) => t == DataType::Float64,
        Value::Utf8(_) => t == DataType::Utf8,
        Value::Boolean(_) => t == DataType::Boolean,
        Value::TimestampMillis(_) => t == DataType::TimestampMillis,
    }
}

impl Value {
    /// A copy of the cell.
    pub fn duplicate(&self) -> (r: Value)
        ensures
            r == *self,
    {
        match self {
            Value::Null => Value::Null,
            Value::Int64(i) => Value::Int64(*i),
            Value::Float64(b) => Value::Float64(*b),
            Value::Utf8(s) => Value::Utf8(s.clone()),
            Value::Boolean(b) => Value::Boolean(*b),
            Value::TimestampMillis(t) => Value::TimestampMillis(*t),
        }
    }

    /// Whether the cell is null.
    pub fn is_null(&self) -> (r: bool)
        ensures
            r == (*self is Null),
    {
        match self {
            Value::Null => true,
            _ => false,
        }
    }
}

impl Field {
    /// A schema entry.
    pub fn new(name: String, dtype: DataType, nullable: bool) -> (r: Field)
        ensures
            r.name == name,
            r.dtype == dtype,
            r.nullable == nullable,
    {
        Field { name, dtype, nullable }
    }

    /// A copy of the schema entry.
    pub fn duplicate(&self) -> (r: Field)
        ensures
            r == *self,
    {
        Field { name: self.name.clone(), dtype: self.dtype, nullable: self.nullable }
    }

    /// Whether two schema entries agree in name, type and nullability.
    pub fn same_as(&self, other: &Field) -> (r: bool)
        ensures
            r == (self.name@ == other.name@ && self.dtype == other.dtype && self.nullable
                == other.nullable),
    {
        self.name == other.name && self.dtype == other.dtype && self.nullable == other.nullable
    }
}

} // verus!
