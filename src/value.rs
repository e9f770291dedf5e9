//! Runtime values and the rules that every operator shares: truthiness,
//! equality, and the decimal text of counts in messages.
use crate::number::{compare_bits, spec_num_equal, NumOrder};
use crate::stmt::FunctionDeclaration;
use std::rc::Rc;
use vstd::prelude::*;

verus! {

/// A function provided by the host rather than written in the language.
#[derive(Clone, Copy, PartialEq, Eq, Structural, Debug)]
pub enum Native {
    /// Seconds since the Unix epoch, as a number.
    Clock,
}

/// A host function value: its fixed arity and its name.
#[derive(Debug)]
pub struct NativeFunction {
    pub arity: usize,
    pub name: String,
    pub native: Native,
}

/// A user function value: its declaration, the scope it closes over, and an
/// identity that tells apart values made by different declaration runs.
#[derive(Debug)]
pub struct Function {
    pub declaration: Rc<FunctionDeclaration>,
    pub closure: usize,
    pub id: u64,
}

/// The runtime value of an expression; a number is the bit pattern of an IEEE-754 double.
#[derive(Debug)]
pub enum Value {
    String(String),
    Number(u64),
    Boolean(bool),
    Function(Function),
    NativeFunction(NativeFunction),
    Nil,
}

/// `nil` and `false` are falsy; every other value is truthy.
pub open spec fn truthy(v: Value) -> bool {
    match v {
        Value::Nil => false,
        Value::Boolean(b) => b,
        _ => true,
    }
}

/// The language's `==`: by content for strings, numbers (IEEE-754), booleans and
/// `nil`; by identity for functions; values of different types are unequal.
pub open spec fn values_equal(a: Value, b: Value) -> bool {
    match (a, b) {
        (Value::String(x), Value::String(y)) => x@ == y@,
        (Value::Number(x), Value::Number(y)) => spec_num_equal(x, y),
        (Value::Boolean(x), Value::Boolean(y)) => x == y,
        (Value::Nil, Value::Nil) => true,
        (Value::Function(f), Value::Function(g)) => f.id == g.id,
        (Value::NativeFunction(f), Value::NativeFunction(g)) => f.native == g.native,
        _ => false,
    }
}

impl Value {
    /// A copy of this value; a function copy shares its declaration.
    pub fn copy(&self) -> (r: Value)
        ensures
            r == *self,
    {
        match self {
            Value::String(s) => Value::String(s.clone()),
            Value::Number(n) => Value::Number(*n),
            Value::Boolean(b) => Value::Boolean(*b),
            Value::Function(f) => Value::Function(
                Function { declaration: Rc::clone(&f.declaration), closure: f.closure, id: f.id },
            ),
            Value::NativeFunction(f) => Value::NativeFunction(
                NativeFunction { arity: f.arity, name: f.name.clone(), native: f.native },
            ),
            Value::Nil => Value::Nil,
        }
    }

    /// Whether this value counts as true in a condition.
    pub fn is_truthy(&self) -> (r: bool)
        ensures
            r == truthy(*self),
    {
        match self {
            Value::Nil => false,
            Value::Boolean(b) => *b,
            _ => true,
        }
    }

    /// The language's `==` on two values.
    pub fn equals(&self, other: &Value) -> (r: bool)
        ensures
            r == values_equal(*self, *other),
    {
        match (self, other) {
            (Value::String(x), Value::String(y)) => *x == *y,
            (Value::Number(x), Value::Number(y)) => compare_bits(*x, *y) == NumOrder::Equal,
            (Value::Boolean(x), Value::Boolean(y)) => *x == *y,
            (Value::Nil, Value::Nil) => true,
            (Value::Function(f), Value::Function(g)) => f.id == g.id,
            (Value::NativeFunction(f), Value::NativeFunction(g)) => f.native == g.native,
            _ => false,
        }
    }
}

pub open spec fn digit_text(d: nat) -> Seq<char> {
    if d == 0 {
        "0"@
    } else if d == 1 {
        "1"@
    } else if d == 2 {
        "2"@
    } else if d == 3 {
        "3"@
    } else if d == 4 {
        "4"@
    } else if d == 5 {
        "5"@
    } else if d == 6 {
        "6"@
    } else if d == 7 {
        "7"@
    } else if d == 8 {
        "8"@
    } else {
        "9"@
    }
}

/// The decimal numeral of a natural number, without leading zeros.
pub open spec fn decimal(n: nat) -> Seq<char>
    decreases n,
{
    if n < 10 {
        digit_text(n)
    } else {
        decimal(n / 10) + digit_text(n % 10)
    }
}

fn digit_str(d: usize) -> (r: &'static str)
    requires
        d < 10,
    ensures
        r@ == digit_text(d as nat),
{
    if d == 0 {
        "0"
    } else if d == 1 {
        "1"
    } else if d == 2 {
        "2"
    } else if d == 3 {
        "3"
    } else if d == 4 {
        "4"
    } else if d == 5 {
        "5"
    } else if d == 6 {
        "6"
    } else if d == 7 {
        "7"
    } else if d == 8 {
        "8"
    } else {
        "9"
    }
}

/// The decimal numeral of `n`.
pub fn decimal_string(n: usize) -> (r: String)
    ensures
        r@ == decimal(n as nat),
    decreases n,
{
    if n < 10 {
        String::from_str(digit_str(n))
    } else {
        let head = decimal_string(n / 10);
        head.concat(digit_str(n % 10))
    }
}

} // verus!
