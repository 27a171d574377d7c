//! The value of one column of a row.

use vstd::prelude::*;
use vstd::string::*;
use crate::text::bytes_eq;

verus! {

/// What a column of a row holds, once decoded.
#[derive(Debug, Clone)]
pub enum Value {
    /// No value.
    Null,
    /// An integer column, or a year.
    Int(i64),
    /// A single-precision number, by its IEEE-754 bits.
    Float(u32),
    /// A double-precision number, by its IEEE-754 bits.
    Double(u64),
    /// A text: a string column, a decimal, a date or a time.
    Text(String),
    /// The bytes of a TEXT or BLOB column.
    Bytes(Vec<u8>),
    /// A number in the text that stands for it in JSON.
    Number(String),
}

/// A [`Value`] as a mathematical value.
pub enum ValueView {
    Null,
    Int(int),
    Float(u32),
    Double(u64),
    Text(Seq<char>),
    Bytes(Seq<u8>),
    Number(Seq<char>),
}

impl View for Value {
    type V = ValueView;

    open spec fn view(&self) -> ValueView {
        match self {
            Value::Null => ValueView::Null,
            Value::Int(i) => ValueView::Int(*i as int),
            Value::Float(b) => ValueView::Float(*b),
            Value::Double(b) => ValueView::Double(*b),
            Value::Text(s) => ValueView::Text(s@),
            Value::Bytes(b) => ValueView::Bytes(b@),
            Value::Number(s) => ValueView::Number(s@),
        }
    }
}

/// The values of a row as mathematical values.
pub open spec fn row_view(row: Seq<Value>) -> Seq<ValueView> {
    Seq::new(row.len(), |k: int| row[k]@)
}

/// The rows of an event as mathematical values.
pub open spec fn rows_view(rows: Seq<Vec<Value>>) -> Seq<Seq<ValueView>> {
    Seq::new(rows.len(), |k: int| row_view(rows[k]@))
}

impl Value {
    /// Whether two values are the same: of one kind and with one content.
    /// Numbers held by their bits are the same when their bits are.
    pub fn same(&self, other: &Value) -> (b: bool)
        ensures
            b == (self@ == other@),
    {
        match (self, other) {
            (Value::Null, Value::Null) => true,
            (Value::Int(a), Value::Int(b)) => *a == *b,
            (Value::Float(a), Value::Float(b)) => *a == *b,
            (Value::Double(a), Value::Double(b)) => *a == *b,
            (Value::Text(a), Value::Text(b)) => *a == *b,
            (Value::Bytes(a), Value::Bytes(b)) => bytes_eq(a.as_slice(), b.as_slice()),
            (Value::Number(a), Value::Number(b)) => *a == *b,
            _ => false,
        }
    }

    /// A copy of the value.
    pub fn duplicate(&self) -> (copy: Value)
        ensures
            copy@ == self@,
    {
        match self {
            Value::Null => Value::Null,
            Value::Int(a) => Value::Int(*a),
            Value::Float(a) => Value::Float(*a),
            Value::Double(a) => Value::Double(*a),
            Value::Text(a) => Value::Text(a.clone()),
            Value::Bytes(a) => Value::Bytes(a.clone()),
            Value::Number(a) => Value::Number(a.clone()),
        }
    }

    /// Whether the value is the null value.
    pub fn is_null(&self) -> (b: bool)
        ensures
            b == (self@ == ValueView::Null),
    {
        match self {
            Value::Null => true,
            _ => false,
        }
    }
}

} // verus!
