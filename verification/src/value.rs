use vstd::prelude::*;

use crate::clock::now_nanos;

verus! {

/// The scalar values the store holds. `Null` is the user-visible "absent"
/// literal; `Tombstone` is the internal marker written for a deletion and is
/// never handed back to a reader.
///
/// A float is carried as the decimal text it was written with: verified code
/// does not compute with floating point, and value content never participates
/// in ordering, so the text is a faithful representation. The boundary code
/// that talks to users may parse it into a machine float.
#[derive(Debug, Clone, PartialEq)]
pub enum Value {
    Integer(i64),
    Float(String),
    String(String),
    Boolean(bool),
    Null,
    Tombstone,
}

/// The mathematical shape of a `Value`.
pub enum ValueView {
    Integer(i64),
    Float(Seq<char>),
    Str(Seq<char>),
    Boolean(bool),
    Null,
    Tombstone,
}

impl View for Value {
    type V = ValueView;

    open spec fn view(&self) -> ValueView {
        match self {
            Value::Integer(i) => ValueView::Integer(*i),
            Value::Float(s) => ValueView::Float(s@),
            Value::String(s) => ValueView::Str(s@),
            Value::Boolean(b) => ValueView::Boolean(*b),
            Value::Null => ValueView::Null,
            Value::Tombstone => ValueView::Tombstone,
        }
    }
}

impl Value {
    /// Whether this value is the internal deletion marker.
    pub fn is_tombstone(&self) -> (r: bool)
        ensures
            r == (self@ is Tombstone),
    {
        match self {
            Value::Tombstone => true,
            _ => false,
        }
    }

    /// An explicit deep copy, with the copy's contents pinned to the original's.
    pub fn duplicate(&self) -> (r: Self)
        ensures
            r@ == self@,
    {
        match self {
            Value::Integer(i) => Value::Integer(*i),
            Value::Float(s) => Value::Float(s.clone()),
            Value::String(s) => Value::String(s.clone()),
            Value::Boolean(b) => Value::Boolean(*b),
            Value::Null => Value::Null,
            Value::Tombstone => Value::Tombstone,
        }
    }
}

/// A value together with the nanosecond timestamp captured when it was
/// written. The timestamp is the sole tiebreaker when the same key appears
/// in two runs during a merge; value content never participates in ordering.
#[derive(Debug, Clone, PartialEq)]
pub struct TimeStampedValue {
    pub timestamp: u128,
    pub value: Value,
}

/// The mathematical shape of a `TimeStampedValue`.
pub struct TsvView {
    pub timestamp: u128,
    pub value: ValueView,
}

impl View for TimeStampedValue {
    type V = TsvView;

    open spec fn view(&self) -> TsvView {
        TsvView { timestamp: self.timestamp, value: self.value@ }
    }
}

impl TimeStampedValue {
    /// Wraps a value with a timestamp read from the system clock.
    pub fn new(value: Value) -> (r: Self)
        ensures
            r@.value == value@,
    {
        TimeStampedValue { timestamp: now_nanos(), value }
    }

    /// Wraps a value with a caller-chosen timestamp.
    pub fn with_timestamp(value: Value, timestamp: u128) -> (r: Self)
        ensures
            r@ == (TsvView { timestamp, value: value@ }),
    {
        TimeStampedValue { timestamp, value }
    }

    /// An explicit deep copy, with the copy's contents pinned to the original's.
    pub fn duplicate(&self) -> (r: Self)
        ensures
            r@ == self@,
    {
        TimeStampedValue { timestamp: self.timestamp, value: self.value.duplicate() }
    }
}

/// The mathematical shape of an owned entry list.
pub open spec fn pairs_view(s: Seq<(String, TimeStampedValue)>) -> Seq<(Seq<char>, TsvView)> {
    s.map(|_i: int, p: (String, TimeStampedValue)| (p.0@, p.1@))
}

} // verus!
