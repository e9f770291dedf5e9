//! Expression nodes of the syntax tree; each node owns its children.
use crate::token::Token;
use vstd::prelude::*;

verus! {

#[derive(Debug)]
pub enum Expr {
    Binary { left: Box<Expr>, operator: Token, right: Box<Expr> },
    Unary { operator: Token, right: Box<Expr> },
    Call { callee: Box<Expr>, paren: Token, args: Vec<Expr> },
    Grouping { expr: Box<Expr> },
    Literal { value: Token },
    Variable { name: Token },
    Assignment { name: Token, value: Box<Expr> },
    LogicOr { left: Box<Expr>, operator: Token, right: Box<Expr> },
    LogicAnd { left: Box<Expr>, operator: Token, right: Box<Expr> },
}

} // verus!
