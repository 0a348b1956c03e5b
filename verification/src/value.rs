//! Scalar values and literals: conversion, equality and order.

use vstd::prelude::*;
use vstd::string::*;

use crate::float_bits;
use crate::float_bits::{double_equal, double_less, double_of_int};
use crate::text;
use crate::text::{text_equal, text_less};

verus! {

/// A stored scalar. A float is held as the bits of a double.
#[derive(Debug)]
pub enum Value {
    String(String),
    Int(i64),
    Float(u64),
    Bool(bool),
    Null,
}

/// The mathematical model of a [`Value`].
pub enum Val {
    Str(Seq<char>),
    Int(i64),
    Float(u64),
    Bool(bool),
    Null,
}

impl View for Value {
    type V = Val;

    open spec fn view(&self) -> Val {
        match *self {
            Value::String(s) => Val::Str(s@),
            Value::Int(n) => Val::Int(n),
            Value::Float(f) => Val::Float(f),
            Value::Bool(b) => Val::Bool(b),
            Value::Null => Val::Null,
        }
    }
}

impl Clone for Value {
    fn clone(&self) -> (r: Self)
        ensures
            r == *self,
    {
        match self {
            Value::String(s) => Value::String(s.clone()),
            Value::Int(n) => Value::Int(*n),
            Value::Float(f) => Value::Float(*f),
            Value::Bool(b) => Value::Bool(*b),
            Value::Null => Value::Null,
        }
    }
}

/// Equality of values: floats are equal as numbers, and values of different
/// kinds are never equal.
pub open spec fn val_eq(a: Val, b: Val) -> bool {
    match (a, b) {
        (Val::Str(x), Val::Str(y)) => x == y,
        (Val::Int(x), Val::Int(y)) => x == y,
        (Val::Float(x), Val::Float(y)) => float_bits::f64_eq(x, y),
        (Val::Bool(x), Val::Bool(y)) => x == y,
        (Val::Null, Val::Null) => true,
        _ => false,
    }
}

impl PartialEq for Value {
    fn eq(&self, other: &Self) -> (r: bool) {
        values_equal(self, other)
    }
}

impl vstd::std_specs::cmp::PartialEqSpecImpl for Value {
    open spec fn obeys_eq_spec() -> bool {
        true
    }

    open spec fn eq_spec(&self, other: &Self) -> bool {
        val_eq(self@, other@)
    }
}

/// Whether two values are equal.
pub fn values_equal(a: &Value, b: &Value) -> (r: bool)
    ensures
        r == val_eq(a@, b@),
{
    match (a, b) {
        (Value::String(x), Value::String(y)) => text_equal(x.as_str(), y.as_str()),
        (Value::Int(x), Value::Int(y)) => *x == *y,
        (Value::Float(x), Value::Float(y)) => double_equal(*x, *y),
        (Value::Bool(x), Value::Bool(y)) => *x == *y,
        (Value::Null, Value::Null) => true,
        _ => false,
    }
}

/// `a > b`. An integer and a float are compared as floats; values of other
/// different kinds, booleans and nulls are never greater.
pub open spec fn val_gt(a: Val, b: Val) -> bool {
    match (a, b) {
        (Val::Int(x), Val::Int(y)) => x > y,
        (Val::Float(x), Val::Float(y)) => float_bits::f64_lt(y, x),
        (Val::Int(x), Val::Float(y)) => float_bits::f64_lt(y, float_bits::int_to_f64(x)),
        (Val::Float(x), Val::Int(y)) => float_bits::f64_lt(float_bits::int_to_f64(y), x),
        (Val::Str(x), Val::Str(y)) => text::text_lt(y, x),
        _ => false,
    }
}

/// `a < b`, by the rules of [`val_gt`].
pub open spec fn val_lt(a: Val, b: Val) -> bool {
    val_gt(b, a)
}

/// Whether `a > b`.
pub fn value_gt(a: &Value, b: &Value) -> (r: bool)
    ensures
        r == val_gt(a@, b@),
{
    match (a, b) {
        (Value::Int(x), Value::Int(y)) => *x > *y,
        (Value::Float(x), Value::Float(y)) => double_less(*y, *x),
        (Value::Int(x), Value::Float(y)) => double_less(*y, double_of_int(*x)),
        (Value::Float(x), Value::Int(y)) => double_less(double_of_int(*y), *x),
        (Value::String(x), Value::String(y)) => text_less(y.as_str(), x.as_str()),
        _ => false,
    }
}

/// Whether `a < b`.
pub fn value_lt(a: &Value, b: &Value) -> (r: bool)
    ensures
        r == val_lt(a@, b@),
{
    match (a, b) {
        (Value::Int(x), Value::Int(y)) => *x < *y,
        (Value::Float(x), Value::Float(y)) => double_less(*x, *y),
        (Value::Int(x), Value::Float(y)) => double_less(double_of_int(*x), *y),
        (Value::Float(x), Value::Int(y)) => double_less(*x, double_of_int(*y)),
        (Value::String(x), Value::String(y)) => text_less(x.as_str(), y.as_str()),
        _ => false,
    }
}

/// The outcome of comparing two items.
#[derive(Clone, Copy, PartialEq, Eq, Structural, Debug)]
pub enum Rank {
    Less,
    Equal,
    Greater,
}

impl Rank {
    /// The outcome with the two items exchanged.
    pub open spec fn flipped(self) -> Rank {
        match self {
            Rank::Less => Rank::Greater,
            Rank::Equal => Rank::Equal,
            Rank::Greater => Rank::Less,
        }
    }

    /// The outcome with the two items exchanged.
    pub fn flip(self) -> (r: Rank)
        ensures
            r == self.flipped(),
    {
        match self {
            Rank::Less => Rank::Greater,
            Rank::Equal => Rank::Equal,
            Rank::Greater => Rank::Less,
        }
    }
}

/// The outcome of comparing two numbers of a linear order.
pub open spec fn rank_by(less: bool, greater: bool) -> Rank {
    if less {
        Rank::Less
    } else if greater {
        Rank::Greater
    } else {
        Rank::Equal
    }
}

/// Whether a field is missing or holds a null.
pub open spec fn absent(v: Option<Val>) -> bool {
    v is None || v == Some(Val::Null)
}

/// How two fields are ordered: missing and null fields come last, numbers and
/// texts by value, false before true; values that cannot be compared are equal.
pub open spec fn val_rank(a: Option<Val>, b: Option<Val>) -> Rank {
    if a == b && absent(a) {
        Rank::Equal
    } else if absent(a) {
        Rank::Greater
    } else if absent(b) {
        Rank::Less
    } else {
        match (a->0, b->0) {
            (Val::Bool(x), Val::Bool(y)) => rank_by(!x && y, x && !y),
            (x, y) => rank_by(val_lt(x, y), val_gt(x, y)),
        }
    }
}

/// The model of an optional value.
pub open spec fn opt_val(v: Option<&Value>) -> Option<Val> {
    match v {
        Some(x) => Some(x@),
        None => None,
    }
}

fn is_absent(v: Option<&Value>) -> (r: bool)
    ensures
        r == absent(opt_val(v)),
{
    match v {
        None => true,
        Some(Value::Null) => true,
        Some(_) => false,
    }
}

/// How two fields are ordered.
pub fn rank_values(a: Option<&Value>, b: Option<&Value>) -> (r: Rank)
    ensures
        r == val_rank(opt_val(a), opt_val(b)),
{
    match (a, b) {
        (None, None) => Rank::Equal,
        (Some(Value::Null), Some(Value::Null)) => Rank::Equal,
        _ => if is_absent(a) {
            Rank::Greater
        } else if is_absent(b) {
            Rank::Less
        } else {
            match (a, b) {
                (Some(Value::Bool(x)), Some(Value::Bool(y))) => if !*x && *y {
                    Rank::Less
                } else if *x && !*y {
                    Rank::Greater
                } else {
                    Rank::Equal
                },
                (Some(x), Some(y)) => if value_lt(x, y) {
                    Rank::Less
                } else if value_gt(x, y) {
                    Rank::Greater
                } else {
                    Rank::Equal
                },
                _ => Rank::Equal,
            }
        },
    }
}

/// The standard library's word for a [`Rank`].
pub open spec fn rank_ordering(r: Rank) -> core::cmp::Ordering {
    match r {
        Rank::Less => core::cmp::Ordering::Less,
        Rank::Equal => core::cmp::Ordering::Equal,
        Rank::Greater => core::cmp::Ordering::Greater,
    }
}

/// How two fields are ordered, as an `Ordering`.
pub fn compare_values(a: Option<&Value>, b: Option<&Value>) -> (r: core::cmp::Ordering)
    ensures
        r == rank_ordering(val_rank(opt_val(a), opt_val(b))),
{
    match rank_values(a, b) {
        Rank::Less => core::cmp::Ordering::Less,
        Rank::Equal => core::cmp::Ordering::Equal,
        Rank::Greater => core::cmp::Ordering::Greater,
    }
}

/// A scalar written in a query.
#[derive(Debug)]
pub enum Literal {
    String(String),
    Int(i64),
    Float(u64),
    Bool(bool),
    Null,
}

impl View for Literal {
    type V = Val;

    open spec fn view(&self) -> Val {
        match *self {
            Literal::String(s) => Val::Str(s@),
            Literal::Int(n) => Val::Int(n),
            Literal::Float(f) => Val::Float(f),
            Literal::Bool(b) => Val::Bool(b),
            Literal::Null => Val::Null,
        }
    }
}

impl Clone for Literal {
    fn clone(&self) -> (r: Self)
        ensures
            r == *self,
    {
        match self {
            Literal::String(s) => Literal::String(s.clone()),
            Literal::Int(n) => Literal::Int(*n),
            Literal::Float(f) => Literal::Float(*f),
            Literal::Bool(b) => Literal::Bool(*b),
            Literal::Null => Literal::Null,
        }
    }
}

/// The value that a literal denotes.
pub fn literal_to_value(lit: &Literal) -> (v: Value)
    ensures
        v@ == lit@,
{
    match lit {
        Literal::String(s) => Value::String(s.clone()),
        Literal::Int(n) => Value::Int(*n),
        Literal::Float(f) => Value::Float(*f),
        Literal::Bool(b) => Value::Bool(*b),
        Literal::Null => Value::Null,
    }
}

/// The name of an entity.
#[derive(Debug)]
pub struct LogicalId {
    name: String,
}

impl View for LogicalId {
    type V = Seq<char>;

    closed spec fn view(&self) -> Seq<char> {
        self.name@
    }
}

impl Clone for LogicalId {
    fn clone(&self) -> (r: Self)
        ensures
            r == *self,
    {
        LogicalId { name: self.name.clone() }
    }
}

impl PartialEq for LogicalId {
    fn eq(&self, other: &Self) -> (r: bool) {
        ids_equal(self, other)
    }
}

impl vstd::std_specs::cmp::PartialEqSpecImpl for LogicalId {
    open spec fn obeys_eq_spec() -> bool {
        true
    }

    open spec fn eq_spec(&self, other: &Self) -> bool {
        self@ == other@
    }
}

impl LogicalId {
    /// The id with the given name.
    pub fn from_string(s: &str) -> (id: Self)
        ensures
            id@ == s@,
    {
        LogicalId { name: text::own(s) }
    }

    /// The name.
    pub fn as_str(&self) -> (s: &str)
        ensures
            s@ == self@,
    {
        self.name.as_str()
    }
}

/// Whether two ids are the same.
pub fn ids_equal(a: &LogicalId, b: &LogicalId) -> (r: bool)
    ensures
        r == (a@ == b@),
{
    text_equal(a.as_str(), b.as_str())
}

/// The value that shows an entity's id in a row.
pub fn id_value(id: &LogicalId) -> (v: Value)
    ensures
        v@ == Val::Str(id@),
{
    Value::String(text::own(id.as_str()))
}

} // verus!
