//! The query runtime: evaluates a parsed statement against the engine.
//! A literal is itself; a read maps "no such key" to Null; a write
//! stores the evaluated value under a fresh stamp and yields Null; a
//! deletion writes the internal marker and yields Null.

use vstd::prelude::*;

use crate::ast::{Expression, Literal, Statement};
use crate::chest::{Chest, max_run_id};
use crate::errors::DungeonResult;
use crate::filter::Filter;
use crate::value::{TimeStampedValue, Value, ValueView};

verus! {

/// The value a literal denotes.
pub open spec fn spec_literal_value(lit: Literal) -> ValueView {
    match lit {
        Literal::String(v) => ValueView::Str(v.val@),
        Literal::Integer(v) => ValueView::Integer(v.val),
        Literal::Float(v) => ValueView::Float(v.val@),
        Literal::Boolean(v) => ValueView::Boolean(v.val),
        Literal::Null(_) => ValueView::Null,
    }
}

/// Turns a literal into the value it denotes.
pub fn value_from_query(lit: Literal) -> (r: Value)
    ensures
        r@ == spec_literal_value(lit),
{
    match lit {
        Literal::String(v) => Value::String(v.val),
        Literal::Integer(v) => Value::Integer(v.val),
        Literal::Float(v) => Value::Float(v.val),
        Literal::Boolean(v) => Value::Boolean(v.val),
        Literal::Null(_) => Value::Null,
    }
}

/// What an expression evaluates to over a given engine state: a literal
/// is itself, a read is the engine's user-visible reading with absence
/// as Null.
pub open spec fn spec_eval<F: Filter>(c: Chest<F>, e: Expression) -> ValueView {
    match e {
        Expression::Literal(lit) => spec_literal_value(lit),
        Expression::Get(g) => match c.user_get(g.val.key@) {
            Some(tv) => tv.value,
            None => ValueView::Null,
        },
    }
}

/// Evaluates an expression. The engine is only read.
pub fn eval_expression<F: Filter>(chest: &Chest<F>, expr: Expression) -> (r: DungeonResult<Value>)
    requires
        chest.wf(),
    ensures
        match r {
            Ok(v) => v@ == spec_eval(*chest, expr),
            Err(_) => false,
        },
{
    match expr {
        Expression::Literal(lit) => Ok(value_from_query(lit)),
        Expression::Get(g) => {
            match chest.get(g.val.key.as_str()) {
                Ok(Some(tv)) => Ok(tv.value),
                Ok(None) => Ok(Value::Null),
                Err(e) => Err(e),
            }
        },
    }
}

/// Runs one statement against the engine. An expression only reads and
/// always answers; a write stores its evaluated value and answers Null;
/// a deletion makes the key read as absent and answers Null. Only a
/// write can fail, and only with the engine's timestamp or run-id space
/// exhausted.
pub fn run_query<F: Filter>(chest: &mut Chest<F>, query: Statement) -> (r: DungeonResult<Value>)
    requires
        old(chest).wf(),
    ensures
        final(chest).wf(),
        query is Expr ==> r is Ok,
        match r {
            Ok(v) => match query {
                Statement::Expr(e) => v@ == spec_eval(*old(chest), e) && *final(chest) == *old(
                    chest,
                ),
                Statement::Assign(s) => v@ == ValueView::Null && final(chest).lookup(
                    s.val.key@,
                ) is Some && final(chest).lookup(s.val.key@)->0.value == spec_eval(
                    *old(chest),
                    s.val.value,
                ),
                Statement::Delete(d) => v@ == ValueView::Null && final(chest).user_get(
                    d.val.key@,
                ) is None,
            },
            Err(_) => {
                &&& !(query is Expr)
                &&& old(chest).spec_last_ts() == u128::MAX || max_run_id(old(chest).runs())
                    >= u128::MAX - 1
            },
        },
{
    match query {
        Statement::Expr(e) => {
            let v = eval_expression(chest, e)?;
            Ok(v)
        },
        Statement::Assign(s) => {
            let value = eval_expression(chest, s.val.value)?;
            chest.set(s.val.key.as_str(), TimeStampedValue::new(value))?;
            Ok(Value::Null)
        },
        Statement::Delete(d) => {
            chest.delete(d.val.key.as_str())?;
            Ok(Value::Null)
        },
    }
}

} // verus!
