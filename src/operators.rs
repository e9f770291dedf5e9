//! The operators of the language on evaluated operands, and the check that
//! precedes every call.
use crate::error::{Error, Result};
use crate::number::{add_bits, compare_bits, div_bits, mul_bits, negate, sub_bits, NumOrder};
use crate::semantics::{
    binary_outcome, call_check, literal_outcome, runtime_error, unary_outcome,
};
use crate::token::{Token, TokenKind, TokenType};
use crate::value::{decimal_string, Value};
use vstd::prelude::*;

verus! {

/// The value of a literal token.
pub fn literal_value(t: &Token) -> (r: Result<Value>)
    ensures
        literal_outcome(*t, r),
{
    match &t.token_type {
        TokenType::Nil => Ok(Value::Nil),
        TokenType::True => Ok(Value::Boolean(true)),
        TokenType::False => Ok(Value::Boolean(false)),
        TokenType::Number(n) => Ok(Value::Number(*n)),
        TokenType::String(s) => Ok(Value::String(s.clone())),
        _ => Err(Error::RuntimeError { line: t.line, msg: String::from_str("unknown literal") }),
    }
}

/// Applies a unary operator to an evaluated operand.
pub fn unary_op(operator: &Token, right: Value) -> (r: Result<Value>)
    ensures
        unary_outcome(*operator, right, r),
{
    match operator.token_type.kind() {
        TokenKind::Minus => match right {
            Value::Number(n) => Ok(Value::Number(negate(n))),
            _ => Err(
                Error::RuntimeError {
                    line: operator.line,
                    msg: String::from_str("operand must be a number"),
                },
            ),
        },
        TokenKind::Bang => Ok(Value::Boolean(!right.is_truthy())),
        _ => Err(
            Error::RuntimeError { line: operator.line, msg: String::from_str("unknown unary operator") },
        ),
    }
}

fn numbers_error(line: usize) -> (r: Error)
    ensures
        runtime_error(Err::<(), Error>(r), line, "operands must be numbers"@),
{
    Error::RuntimeError { line, msg: String::from_str("operands must be numbers") }
}

/// Applies a binary operator to two evaluated operands.
pub fn binary_op(operator: &Token, left: Value, right: Value) -> (r: Result<Value>)
    ensures
        binary_outcome(*operator, left, right, r),
{
    let line = operator.line;
    match operator.token_type.kind() {
        TokenKind::Plus => match (left, right) {
            (Value::Number(a), Value::Number(b)) => Ok(Value::Number(add_bits(a, b))),
            (Value::String(a), Value::String(b)) => Ok(Value::String(a.concat(b.as_str()))),
            _ => Err(
                Error::RuntimeError { line, msg: String::from_str("operands must be numbers or strings") },
            ),
        },
        TokenKind::EqualEqual => Ok(Value::Boolean(left.equals(&right))),
        TokenKind::BangEqual => Ok(Value::Boolean(!left.equals(&right))),
        TokenKind::Minus | TokenKind::Star | TokenKind::Slash | TokenKind::Greater
        | TokenKind::GreaterEqual | TokenKind::Less | TokenKind::LessEqual => {
            let (a, b) = match (left, right) {
                (Value::Number(a), Value::Number(b)) => (a, b),
                _ => {
                    return Err(numbers_error(line));
                },
            };
            let k = operator.token_type.kind();
            if k == TokenKind::Minus {
                Ok(Value::Number(sub_bits(a, b)))
            } else if k == TokenKind::Star {
                Ok(Value::Number(mul_bits(a, b)))
            } else if k == TokenKind::Slash {
                Ok(Value::Number(div_bits(a, b)))
            } else {
                let order = compare_bits(a, b);
                if k == TokenKind::Greater {
                    Ok(Value::Boolean(order == NumOrder::Greater))
                } else if k == TokenKind::GreaterEqual {
                    Ok(Value::Boolean(order == NumOrder::Greater || order == NumOrder::Equal))
                } else if k == TokenKind::Less {
                    Ok(Value::Boolean(order == NumOrder::Less))
                } else {
                    Ok(Value::Boolean(order == NumOrder::Less || order == NumOrder::Equal))
                }
            }
        },
        _ => Err(Error::RuntimeError { line, msg: String::from_str("unknown binary operator") }),
    }
}

/// Checks that `callee` can be called with `argc` arguments.
pub fn check_call(callee: &Value, argc: usize, line: usize) -> (r: Result<()>)
    ensures
        call_check(*callee, argc as nat, line, r),
{
    let arity = match callee {
        Value::Function(f) => f.declaration.params.len(),
        Value::NativeFunction(n) => n.arity,
        _ => {
            return Err(
                Error::RuntimeError {
                    line,
                    msg: String::from_str("can only call functions and classes"),
                },
            );
        },
    };
    if arity == argc {
        Ok(())
    } else {
        let msg = String::from_str("expected ").concat(decimal_string(arity).as_str()).concat(
            " arguments but got ",
        ).concat(decimal_string(argc).as_str()).concat(" arguments");
        Err(Error::RuntimeError { line, msg })
    }
}

} // verus!
