//! Runtime values: their truth value, display text and numeric order.

use vstd::prelude::*;
use crate::number::{int_text, int_to_text, int_order_key, float_order_key, int_key, float_key};
use crate::text::chars_of;

verus! {

/// A double, held as its IEEE-754 bit pattern and its display text.
#[derive(Debug)]
pub struct FloatNum {
    pub bits: u64,
    pub text: Vec<char>,
}

#[derive(Debug)]
pub enum Value {
    Integer(i64),
    Float(FloatNum),
    Str(Vec<char>),
    Bool(bool),
    Nothing,
}

/// The mathematical form of a value.
pub ghost enum Val {
    Integer(i64),
    Float(u64, Seq<char>),
    Str(Seq<char>),
    Bool(bool),
    Nothing,
}

impl View for Value {
    type V = Val;

    open spec fn view(&self) -> Val {
        match self {
            Value::Integer(i) => Val::Integer(*i),
            Value::Float(f) => Val::Float(f.bits, f.text@),
            Value::Str(s) => Val::Str(s@),
            Value::Bool(b) => Val::Bool(*b),
            Value::Nothing => Val::Nothing,
        }
    }
}

/// Truth value: booleans are themselves, numbers are true unless zero
/// (either sign; NaN is true), text unless empty, `nothing` is false.
pub open spec fn truth(v: Val) -> bool {
    match v {
        Val::Bool(b) => b,
        Val::Integer(i) => i != 0,
        Val::Float(b, _) => b as int % 0x8000_0000_0000_0000 != 0,
        Val::Str(s) => s.len() > 0,
        Val::Nothing => false,
    }
}

/// Display text: decimal for numbers, `true` / `false`, `nothing`, and text
/// as it is.
pub open spec fn display(v: Val) -> Seq<char> {
    match v {
        Val::Integer(i) => int_text(i as int),
        Val::Float(_, t) => t,
        Val::Bool(b) => if b {
            "true"@
        } else {
            "false"@
        },
        Val::Str(s) => s,
        Val::Nothing => "nothing"@,
    }
}

/// Where a value stands among numbers compared as doubles: `None` for a
/// value that is not a number, `Some(None)` for NaN.
pub open spec fn order_key(v: Val) -> Option<Option<int>> {
    match v {
        Val::Integer(i) => Some(Some(int_order_key(i))),
        Val::Float(b, _) => Some(float_order_key(b)),
        _ => None,
    }
}

impl Value {
    pub fn to_bool(&self) -> (r: bool)
        ensures
            r == truth(self@),
    {
        match self {
            Value::Bool(b) => *b,
            Value::Integer(i) => *i != 0,
            Value::Float(f) => f.bits % 0x8000_0000_0000_0000 != 0,
            Value::Str(s) => s.len() > 0,
            Value::Nothing => false,
        }
    }

    pub fn to_text(&self) -> (r: Vec<char>)
        ensures
            r@ == display(self@),
    {
        match self {
            Value::Integer(i) => int_to_text(*i),
            Value::Float(f) => f.text.clone(),
            Value::Bool(b) => if *b {
                chars_of("true")
            } else {
                chars_of("false")
            },
            Value::Str(s) => s.clone(),
            Value::Nothing => chars_of("nothing"),
        }
    }

    /// The value's place in the order of doubles; `Err(())` when it is no
    /// number.
    pub fn number_key(&self) -> (r: Result<Option<i128>, ()>)
        ensures
            r matches Ok(k) ==> order_key(self@) matches Some(m) && (k matches Some(x) ==> m == Some(
                x as int,
            )) && (k is None ==> m is None),
            r is Err ==> order_key(self@) is None,
    {
        match self {
            Value::Integer(i) => Ok(Some(int_key(*i))),
            Value::Float(f) => Ok(float_key(f.bits)),
            _ => Err(()),
        }
    }
}

pub fn clone_value(v: &Value) -> (r: Value)
    ensures
        r@ == v@,
{
    match v {
        Value::Integer(i) => Value::Integer(*i),
        Value::Float(f) => Value::Float(FloatNum { bits: f.bits, text: f.text.clone() }),
        Value::Str(s) => Value::Str(s.clone()),
        Value::Bool(b) => Value::Bool(*b),
        Value::Nothing => Value::Nothing,
    }
}

} // verus!
