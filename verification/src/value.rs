//! Column values.
use vstd::prelude::*;

verus! {

/// A double precision number, held by its bit pattern.
#[derive(Clone, Copy, Debug, PartialEq, Eq, Structural)]
pub struct Float64Bits {
    pub bits: u64,
}

/// A value of one column.
#[derive(Debug)]
pub enum Value {
    Null,
    Boolean(bool),
    Int32(i32),
    Int64(i64),
    Float64(Float64Bits),
    String(String),
    DateTime(i64),
    Bytes(Vec<u8>),
    Jsonb(Vec<u8>),
}

/// What a [`Value`] holds.
pub enum ValueView {
    Null,
    Boolean(bool),
    Int32(i32),
    Int64(i64),
    Float64(u64),
    String(Seq<char>),
    DateTime(i64),
    Bytes(Seq<u8>),
    Jsonb(Seq<u8>),
}

impl View for Value {
    type V = ValueView;

    open spec fn view(&self) -> ValueView {
        match self {
            Value::Null => ValueView::Null,
            Value::Boolean(b) => ValueView::Boolean(*b),
            Value::Int32(v) => ValueView::Int32(*v),
            Value::Int64(v) => ValueView::Int64(*v),
            Value::Float64(v) => ValueView::Float64(v.bits),
            Value::String(s) => ValueView::String(s@),
            Value::DateTime(v) => ValueView::DateTime(*v),
            Value::Bytes(b) => ValueView::Bytes(b@),
            Value::Jsonb(b) => ValueView::Jsonb(b@),
        }
    }
}

/// What a sequence of values holds.
pub open spec fn values_view(values: Seq<Value>) -> Seq<ValueView> {
    values.map_values(|value: Value| value@)
}

/// Tells whether two byte strings are the same.
pub fn same_bytes(left: &[u8], right: &[u8]) -> (same: bool)
    ensures
        same == (left@ == right@),
{
    if left.len() != right.len() {
        return false;
    }
    let mut i: usize = 0;
    while i < left.len()
        invariant
            i <= left.len(),
            left.len() == right.len(),
            forall|j: int| 0 <= j < i ==> left@[j] == right@[j],
        decreases left.len() - i,
    {
        if left[i] != right[i] {
            return false;
        }
        i += 1;
    }
    assert(left@ =~= right@);
    true
}

impl Clone for Value {
    fn clone(&self) -> (result: Self)
        ensures
            result@ == self@,
    {
        match self {
            Value::Null => Value::Null,
            Value::Boolean(b) => Value::Boolean(*b),
            Value::Int32(v) => Value::Int32(*v),
            Value::Int64(v) => Value::Int64(*v),
            Value::Float64(v) => Value::Float64(*v),
            Value::String(s) => Value::String(s.clone()),
            Value::DateTime(v) => Value::DateTime(*v),
            Value::Bytes(b) => {
                let copy = b.clone();
                assert(copy@ =~= b@);
                Value::Bytes(copy)
            },
            Value::Jsonb(b) => {
                let copy = b.clone();
                assert(copy@ =~= b@);
                Value::Jsonb(copy)
            },
        }
    }
}

impl PartialEq for Value {
    fn eq(&self, other: &Self) -> (same: bool) {
        match (self, other) {
            (Value::Null, Value::Null) => true,
            (Value::Boolean(l), Value::Boolean(r)) => *l == *r,
            (Value::Int32(l), Value::Int32(r)) => *l == *r,
            (Value::Int64(l), Value::Int64(r)) => *l == *r,
            (Value::Float64(l), Value::Float64(r)) => l.bits == r.bits,
            (Value::String(l), Value::String(r)) => *l == *r,
            (Value::DateTime(l), Value::DateTime(r)) => *l == *r,
            (Value::Bytes(l), Value::Bytes(r)) => same_bytes(l.as_slice(), r.as_slice()),
            (Value::Jsonb(l), Value::Jsonb(r)) => same_bytes(l.as_slice(), r.as_slice()),
            _ => false,
        }
    }
}

impl vstd::std_specs::cmp::PartialEqSpecImpl for Value {
    open spec fn obeys_eq_spec() -> bool {
        true
    }

    open spec fn eq_spec(&self, other: &Self) -> bool {
        self@ == other@
    }
}

impl Value {
    /// Tells whether this is the SQL null.
    pub fn is_null(&self) -> (null: bool)
        ensures
            null == (self@ == ValueView::Null),
    {
        matches!(self, Value::Null)
    }
}

/// Copies a list of values.
pub fn clone_values(values: &[Value]) -> (result: Vec<Value>)
    ensures
        values_view(result@) == values_view(values@),
{
    let mut result: Vec<Value> = Vec::new();
    let mut i: usize = 0;
    while i < values.len()
        invariant
            i <= values.len(),
            result.len() == i,
            forall|j: int| 0 <= j < i ==> (#[trigger] result@[j])@ == values@[j]@,
        decreases values.len() - i,
    {
        result.push(values[i].clone());
        i += 1;
    }
    assert(values_view(result@) =~= values_view(values@));
    result
}

/// Tells whether two lists hold the same values.
pub fn same_values(left: &[Value], right: &[Value]) -> (same: bool)
    ensures
        same == (values_view(left@) == values_view(right@)),
{
    if left.len() != right.len() {
        assert(values_view(left@).len() != values_view(right@).len());
        return false;
    }
    let mut i: usize = 0;
    while i < left.len()
        invariant
            i <= left.len(),
            left.len() == right.len(),
            forall|j: int| 0 <= j < i ==> (#[trigger] left@[j])@ == right@[j]@,
        decreases left.len() - i,
    {
        if left[i] != right[i] {
            assert(values_view(left@)[i as int] != values_view(right@)[i as int]);
            return false;
        }
        i += 1;
    }
    assert(values_view(left@) =~= values_view(right@));
    true
}

} // verus!
