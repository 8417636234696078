//! The statement shapes the query runtime evaluates: a literal, a read,
//! a write or a deletion, each element carrying the span it was read
//! from.

use vstd::prelude::*;

verus! {

/// A character span within a statement line.
#[derive(Debug, Clone, Copy, PartialEq, Eq, Structural)]
pub struct Location {
    pub start: usize,
    pub end: usize,
}

impl Location {
    pub fn new(start: usize, end: usize) -> (r: Self)
        ensures
            r.start == start && r.end == end,
    {
        Location { start, end }
    }
}

/// A parsed element together with where it stood.
#[derive(Debug, Clone, PartialEq)]
pub struct LocatedElement<T> {
    pub val: T,
    pub location: Location,
}

impl<T> LocatedElement<T> {
    pub fn new(val: T, location: Location) -> (r: Self)
        ensures
            r.val == val && r.location == location,
    {
        LocatedElement { val, location }
    }

    /// Wraps a value with the empty span.
    pub fn from_value(val: T) -> (r: Self)
        ensures
            r.val == val && r.location == (Location { start: 0, end: 0 }),
    {
        LocatedElement { val, location: Location { start: 0, end: 0 } }
    }
}

/// A literal as written: the float is kept as its decimal text.
#[derive(Debug, Clone, PartialEq)]
pub enum Literal {
    String(LocatedElement<String>),
    Integer(LocatedElement<i64>),
    Float(LocatedElement<String>),
    Boolean(LocatedElement<bool>),
    Null(LocatedElement<bool>),
}

/// A read of one key.
#[derive(Debug, Clone, PartialEq)]
pub struct GetExpr {
    pub key: String,
}

#[derive(Debug, Clone, PartialEq)]
pub enum Expression {
    Literal(Literal),
    Get(LocatedElement<GetExpr>),
}

#[derive(Debug, Clone, PartialEq)]
pub struct SetStmt {
    pub key: String,
    pub value: Expression,
}

#[derive(Debug, Clone, PartialEq)]
pub struct DeleteStmt {
    pub key: String,
}

#[derive(Debug, Clone, PartialEq)]
pub enum Statement {
    Expr(Expression),
    Assign(LocatedElement<SetStmt>),
    Delete(LocatedElement<DeleteStmt>),
}

} // verus!
