//! Statement nodes of the syntax tree.
use crate::expr::Expr;
use crate::token::Token;
use std::rc::Rc;
use vstd::prelude::*;

verus! {

#[derive(Debug)]
pub enum Stmt {
    Expression { expr: Box<Expr> },
    /// Shared, so that the function values made from it need not copy its body.
    FunctionDeclaration(Rc<FunctionDeclaration>),
    Print { expr: Box<Expr> },
    Return { keyword: Token, value: Option<Box<Expr>> },
    VariableDeclaration { name: Token, initializer: Option<Box<Expr>> },
    If { condition: Box<Expr>, then_branch: Box<Stmt>, else_branch: Option<Box<Stmt>> },
    While { condition: Box<Expr>, body: Box<Stmt> },
    Block { stmts: Vec<Stmt> },
}

/// A named function: its parameter names and its body.
#[derive(Debug)]
pub struct FunctionDeclaration {
    pub name: Token,
    pub params: Vec<Token>,
    pub body: Vec<Stmt>,
}

} // verus!
