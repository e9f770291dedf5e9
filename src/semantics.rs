//! What running code means: the states a program runs through, and relations
//! that say, for each expression and statement, which final state and outcome
//! running it from a given state may end in. The interpreter is proved to
//! follow them; the laws at the end are stated over them.
use crate::environment::{assigned, defined, fresh_scope, lookup, ScopeView};
use crate::error::{Error, Result};
use crate::expr::Expr;
use crate::number::{
    difference_of, integer_value_of, negated, product_of, quotient_of, spec_greater, spec_greater_equal, spec_less,
    spec_less_equal, sum_of,
};
use crate::stmt::{FunctionDeclaration, Stmt};
use crate::token::{Token, TokenKind, TokenType};
use crate::value::{decimal, truthy, values_equal, Function, Value};
use std::rc::Rc;
use vstd::prelude::*;

verus! {

/// How a statement finished: normally, or by a `return` carrying its value.
pub enum Flow {
    Normal,
    Return(Value),
}

pub open spec fn runtime_error<T>(r: Result<T>, line: usize, msg: Seq<char>) -> bool {
    r matches Err(Error::RuntimeError { line: l, msg: m }) && l == line && m@ == msg
}

/// The value of a literal token.
pub open spec fn literal_outcome(t: Token, out: Result<Value>) -> bool {
    match t.token_type {
        TokenType::Nil => out == Ok::<Value, Error>(Value::Nil),
        TokenType::True => out == Ok::<Value, Error>(Value::Boolean(true)),
        TokenType::False => out == Ok::<Value, Error>(Value::Boolean(false)),
        TokenType::Number(n) => out == Ok::<Value, Error>(Value::Number(n)),
        TokenType::String(s) => out == Ok::<Value, Error>(Value::String(s)),
        _ => runtime_error(out, t.line, "unknown literal"@),
    }
}

/// `-` negates a number; `!` negates truthiness.
pub open spec fn unary_outcome(op: Token, v: Value, out: Result<Value>) -> bool {
    match op.token_type.spec_kind() {
        TokenKind::Minus => match v {
            Value::Number(n) => out == Ok::<Value, Error>(Value::Number(negated(n))),
            _ => runtime_error(out, op.line, "operand must be a number"@),
        },
        TokenKind::Bang => out == Ok::<Value, Error>(Value::Boolean(!truthy(v))),
        _ => runtime_error(out, op.line, "unknown unary operator"@),
    }
}

/// An arithmetic or ordering operator on two numbers; an error on anything else.
pub open spec fn numeric_outcome(l: Value, r: Value, line: usize, result: Value, out: Result<Value>) -> bool {
    if l is Number && r is Number {
        out == Ok::<Value, Error>(result)
    } else {
        runtime_error(out, line, "operands must be numbers"@)
    }
}

/// What each binary operator gives on two values.
pub open spec fn binary_outcome(op: Token, l: Value, r: Value, out: Result<Value>) -> bool {
    let line = op.line;
    let (a, b) = (
        match l {
            Value::Number(a) => a,
            _ => 0,
        },
        match r {
            Value::Number(b) => b,
            _ => 0,
        },
    );
    match op.token_type.spec_kind() {
        TokenKind::Plus => match (l, r) {
            (Value::Number(x), Value::Number(y)) => out == Ok::<Value, Error>(Value::Number(sum_of(x, y))),
            (Value::String(x), Value::String(y)) => out matches Ok(Value::String(s)) && s@ == x@ + y@,
            _ => runtime_error(out, line, "operands must be numbers or strings"@),
        },
        TokenKind::Minus => numeric_outcome(l, r, line, Value::Number(difference_of(a, b)), out),
        TokenKind::Star => numeric_outcome(l, r, line, Value::Number(product_of(a, b)), out),
        TokenKind::Slash => numeric_outcome(l, r, line, Value::Number(quotient_of(a, b)), out),
        TokenKind::Greater => numeric_outcome(l, r, line, Value::Boolean(spec_greater(a, b)), out),
        TokenKind::GreaterEqual => numeric_outcome(l, r, line, Value::Boolean(spec_greater_equal(a, b)), out),
        TokenKind::Less => numeric_outcome(l, r, line, Value::Boolean(spec_less(a, b)), out),
        TokenKind::LessEqual => numeric_outcome(l, r, line, Value::Boolean(spec_less_equal(a, b)), out),
        TokenKind::EqualEqual => out == Ok::<Value, Error>(Value::Boolean(values_equal(l, r))),
        TokenKind::BangEqual => out == Ok::<Value, Error>(Value::Boolean(!values_equal(l, r))),
        _ => runtime_error(out, line, "unknown binary operator"@),
    }
}

/// The number of parameters a callable value takes; `None` for other values.
pub open spec fn callee_arity(v: Value) -> Option<nat> {
    match v {
        Value::Function(f) => Some(f.declaration.params@.len()),
        Value::NativeFunction(n) => Some(n.arity as nat),
        _ => None,
    }
}

pub open spec fn arity_message(expected: nat, got: nat) -> Seq<char> {
    "expected "@ + decimal(expected) + " arguments but got "@ + decimal(got) + " arguments"@
}

/// A call goes ahead only on a callable value given as many arguments as it takes.
pub open spec fn call_check(callee: Value, argc: nat, line: usize, out: Result<()>) -> bool {
    match callee_arity(callee) {
        None => runtime_error(out, line, "can only call functions and classes"@),
        Some(n) => if n == argc {
            out == Ok::<(), Error>(())
        } else {
            runtime_error(out, line, arity_message(n, argc))
        },
    }
}

/// The size of an expression tree: what the evaluator's recursion descends on.
pub open spec fn expr_size(e: Expr) -> nat
    decreases e,
{
    match e {
        Expr::Binary { left, right, .. } => 1 + expr_size(*left) + expr_size(*right),
        Expr::Unary { right, .. } => 1 + expr_size(*right),
        Expr::Call { callee, args, .. } => 1 + expr_size(*callee) + exprs_size(args@),
        Expr::Grouping { expr } => 1 + expr_size(*expr),
        Expr::Literal { .. } => 1,
        Expr::Variable { .. } => 1,
        Expr::Assignment { value, .. } => 1 + expr_size(*value),
        Expr::LogicOr { left, right, .. } => 1 + expr_size(*left) + expr_size(*right),
        Expr::LogicAnd { left, right, .. } => 1 + expr_size(*left) + expr_size(*right),
    }
}

pub open spec fn exprs_size(s: Seq<Expr>) -> nat
    decreases s,
{
    if s.len() == 0 {
        1
    } else {
        exprs_size(s.subrange(0, s.len() - 1)) + expr_size(s[s.len() - 1])
    }
}

/// The size of a statement tree; a function declaration counts as a leaf, since
/// running it does not run its body.
pub open spec fn stmt_size(st: Stmt) -> nat
    decreases st,
{
    match st {
        Stmt::Expression { expr } => 1 + expr_size(*expr),
        Stmt::FunctionDeclaration(_) => 1,
        Stmt::Print { expr } => 1 + expr_size(*expr),
        Stmt::Return { value, .. } => match value {
            Some(e) => 1 + expr_size(*e),
            None => 1,
        },
        Stmt::VariableDeclaration { initializer, .. } => match initializer {
            Some(e) => 1 + expr_size(*e),
            None => 1,
        },
        Stmt::If { condition, then_branch, else_branch } => 1 + expr_size(*condition) + stmt_size(
            *then_branch,
        ) + match else_branch {
            Some(e) => stmt_size(*e),
            None => 0,
        },
        Stmt::While { condition, body } => 1 + expr_size(*condition) + stmt_size(*body),
        Stmt::Block { stmts } => 2 + stmts_size(stmts@),
    }
}

pub open spec fn stmts_size(s: Seq<Stmt>) -> nat
    decreases s,
{
    if s.len() == 0 {
        1
    } else {
        stmts_size(s.subrange(0, s.len() - 1)) + stmt_size(s[s.len() - 1])
    }
}

/// Evaluating one more expression after a prefix.
pub proof fn lemma_exprs_size(s: Seq<Expr>)
    ensures
        forall|i: int| 0 <= i < s.len() ==> expr_size(#[trigger] s[i]) < exprs_size(s),
        exprs_size(s) >= 1,
    decreases s.len(),
{
    if s.len() > 0 {
        let p = s.subrange(0, s.len() - 1);
        lemma_exprs_size(p);
        assert forall|i: int| 0 <= i < s.len() implies expr_size(#[trigger] s[i]) < exprs_size(s) by {
            if i < s.len() - 1 {
                assert(s[i] == p[i]);
            }
        }
    }
}

pub proof fn lemma_stmts_size(s: Seq<Stmt>)
    ensures
        forall|i: int| 0 <= i < s.len() ==> stmt_size(#[trigger] s[i]) < stmts_size(s),
        stmts_size(s) >= 1,
    decreases s.len(),
{
    if s.len() > 0 {
        let p = s.subrange(0, s.len() - 1);
        lemma_stmts_size(p);
        assert forall|i: int| 0 <= i < s.len() implies stmt_size(#[trigger] s[i]) < stmts_size(s) by {
            if i < s.len() - 1 {
                assert(s[i] == p[i]);
            }
        }
    }
}

/// What running code can see and change: the scope arena, the scope code runs
/// in, what `print` has written, the steps left, and the next function identity.
pub struct Machine {
    pub scopes: Seq<ScopeView>,
    pub scope: int,
    pub printed: Seq<Value>,
    pub budget: nat,
    pub next_id: u64,
}

/// `m1` is a state that running code reached from `m0`: back in the same scope,
/// with no scope removed or relinked, the output only added to, and no step given back.
pub open spec fn reaches(m0: Machine, m1: Machine) -> bool {
    &&& m1.scope == m0.scope
    &&& m1.scopes.len() >= m0.scopes.len()
    &&& m1.printed.len() >= m0.printed.len()
    &&& forall|i: int| 0 <= i < m0.printed.len() ==> #[trigger] m1.printed[i] == m0.printed[i]
    &&& m1.budget <= m0.budget
    &&& forall|i: int|
        0 <= i < m0.scopes.len() ==> (#[trigger] m1.scopes[i]).enclosing == m0.scopes[i].enclosing
}

/// What a call may do once its callee and arguments are known and checked: it
/// runs on from `m0` to `m1`, a user function's scope linked inside the scope
/// it closes over; a host function gives a number.
pub open spec fn call_outcome(f: Value, m0: Machine, m1: Machine, r: Result<Value>) -> bool {
    &&& reaches(m0, m1)
    &&& (r matches Err(e) ==> e is RuntimeError)
    &&& (f is Function && m1.scopes.len() > m0.scopes.len() ==> m1.scopes[m0.scopes.len() as int].enclosing
        == Some(f->Function_0.closure))
    &&& (f is NativeFunction ==> m1 == m0 && (r is Ok ==> exists|millis: u64|
        r == Ok::<Value, Error>(Value::Number(#[trigger] clock_reading(millis)))))
}

/// A marker naming an intermediate state and what was computed on the way to
/// it; it holds of everything and only guides the search for such witnesses.
pub open spec fn between(m0: Machine, m1: Machine, x: Value) -> bool {
    true
}

/// The same marker for the arguments of a call: the states `ms` they ran
/// through and the values `vs` they gave.
pub open spec fn argument_run(ms: Seq<Machine>, vs: Seq<Value>) -> bool {
    true
}


/// The first operand of `e`: the one evaluated before anything else.
pub open spec fn first_operand(e: Expr) -> Option<Expr> {
    match e {
        Expr::Unary { right, .. } => Some(*right),
        Expr::Binary { left, .. } => Some(*left),
        Expr::LogicOr { left, .. } => Some(*left),
        Expr::LogicAnd { left, .. } => Some(*left),
        Expr::Assignment { value, .. } => Some(*value),
        Expr::Call { callee, .. } => Some(*callee),
        Expr::Grouping { expr } => Some(*expr),
        _ => None,
    }
}

/// An error in the first operand is the error of the whole.
pub(crate) proof fn lemma_first_fails(m0: Machine, e: Expr, m1: Machine, err: Error)
    requires
        first_operand(e) matches Some(sub) && evaluates(m0, sub, m1, Err(err)),
    ensures
        evaluates(m0, e, m1, Err(err)),
{
    reveal(step);
}

/// The simple cases: literals, variables, groupings and unary operators.
pub(crate) proof fn lemma_eval_leaf(m0: Machine, e: Expr, m1: Machine, r: Result<Value>)
    requires
        match e {
            Expr::Literal { value } => m1 == m0 && literal_outcome(value, r),
            Expr::Variable { name } => m1 == m0 && match lookup(m0.scopes, m0.scope, name.text@) {
                Some(v) => r == Ok::<Value, Error>(v),
                None => runtime_error(r, name.line, "undefined variable "@ + name.text@),
            },
            Expr::Grouping { expr } => evaluates(m0, *expr, m1, r),
            _ => false,
        },
    ensures
        evaluates(m0, e, m1, r),
{
    reveal(step);
}

pub(crate) proof fn lemma_eval_unary(m0: Machine, e: Expr, v: Value, m1: Machine, r: Result<Value>)
    requires
        e matches Expr::Unary { operator, right } && evaluates(m0, *right, m1, Ok(v))
            && unary_outcome(operator, v, r),
    ensures
        evaluates(m0, e, m1, r),
{
    reveal(step);
    assert(between(m0, m1, v));
}

/// The right operand of a binary, `and` or `or` expression, after the left one
/// gave `l` in state `mid`.
pub(crate) proof fn lemma_eval_second(
    m0: Machine,
    e: Expr,
    mid: Machine,
    l: Value,
    v: Result<Value>,
    m1: Machine,
    r: Result<Value>,
)
    requires
        mid.budget <= m0.budget,
        match e {
            Expr::Binary { left, operator, right } => {
                &&& evaluates(m0, *left, mid, Ok(l))
                &&& evaluates(mid, *right, m1, v)
                &&& match v {
                    Ok(x) => binary_outcome(operator, l, x, r),
                    Err(err) => r == Err::<Value, Error>(err),
                }
            },
            Expr::LogicOr { left, right, .. } => {
                &&& evaluates(m0, *left, mid, Ok(l))
                &&& if truthy(l) {
                    m1 == mid && r == Ok::<Value, Error>(l)
                } else {
                    evaluates(mid, *right, m1, r)
                }
            },
            Expr::LogicAnd { left, right, .. } => {
                &&& evaluates(m0, *left, mid, Ok(l))
                &&& if truthy(l) {
                    evaluates(mid, *right, m1, r)
                } else {
                    m1 == mid && r == Ok::<Value, Error>(l)
                }
            },
            _ => false,
        },
    ensures
        evaluates(m0, e, m1, r),
{
    reveal(step);
    assert(between(m0, mid, l));
    if let Ok(x) = v {
        assert(between(mid, m1, x));
    }
}

pub(crate) proof fn lemma_eval_assignment(m0: Machine, e: Expr, mid: Machine, v: Value, m1: Machine, r: Result<Value>)
    requires
        e matches Expr::Assignment { name, value } && evaluates(m0, *value, mid, Ok(v)) && match lookup(
            mid.scopes,
            mid.scope,
            name.text@,
        ) {
            Some(_) => r == Ok::<Value, Error>(v) && m1 == Machine {
                scopes: assigned(mid.scopes, mid.scope, name.text@, v),
                ..mid
            },
            None => m1 == mid && runtime_error(r, name.line, "undefined variable "@ + name.text@),
        },
    ensures
        evaluates(m0, e, m1, r),
{
    reveal(step);
    assert(between(m0, mid, v));
}

/// A call whose callee gave `f` in state `mid`, and whose first `vs.len()`
/// arguments ran through the states `ms`; the argument after them failed with
/// `err` where `args_err` says so.
pub(crate) proof fn lemma_eval_call(
    m0: Machine,
    e: Expr,
    mid: Machine,
    f: Value,
    ms: Seq<Machine>,
    vs: Seq<Value>,
    m1: Machine,
    r: Result<Value>,
)
    requires
        e matches Expr::Call { callee, paren, args } && evaluates(m0, *callee, mid, Ok(f))
            && ms.len() == vs.len() + 1 && ms[0] == mid && vs.len() <= args@.len() && (forall|i: int|
            0 <= i <= vs.len() ==> (#[trigger] ms[i]).budget <= m0.budget) && (forall|i: int|
            0 <= i < vs.len() ==> evaluates(#[trigger] ms[i], args@[i], ms[i + 1], Ok(vs[i])))
            && if vs.len() < args@.len() {
            r matches Err(err) && evaluates(ms[vs.len() as int], args@[vs.len() as int], m1, Err(err))
        } else if call_check(f, vs.len(), paren.line, Ok(())) {
            call_outcome(f, ms[vs.len() as int], m1, r) && call_runs(f, vs, ms[vs.len() as int], m1, r)
        } else {
            m1 == ms[vs.len() as int] && (r matches Err(err) && call_check(f, vs.len(), paren.line, Err(err)))
        },
    ensures
        evaluates(m0, e, m1, r),
{
    reveal(step);
    assert(between(m0, mid, f));
    assert(argument_run(ms, vs));
}

/// What a call of a user function does, once its callee `f` and arguments `vs`
/// are known and checked in state `m0`: with no step left it fails and changes
/// nothing; otherwise its body runs from the state `call_entry` describes, and
/// the call gives what `function_result` makes of how the body ended.
pub open spec fn call_runs(f: Value, vs: Seq<Value>, m0: Machine, m1: Machine, r: Result<Value>) -> bool {
    &&& (f is Function && m0.budget == 0 ==> m1 == m0 && r is Err)
    &&& (f is Function && 0 < m0.budget && f->Function_0.closure < m0.scopes.len() ==> exists|
        mk: Machine,
        flow: Result<Flow>,
    |
        #[trigger] call_ran(mk, flow) && runs(
            call_entry(f->Function_0, vs, m0),
            f->Function_0.declaration.body@,
            mk,
            flow,
        ) && m1 == left_to(mk, m0.scope) && r == function_result(flow))
}

/// A marker naming an intermediate state; it holds of everything and only
/// guides the search for such witnesses.
pub open spec fn resumed(m: Machine) -> bool {
    true
}

/// The same marker for the states that a run of statements went through.
pub open spec fn statement_run(ms: Seq<Machine>) -> bool {
    true
}

/// The same marker for how a run of statements ended.
pub open spec fn ended(f: Flow) -> bool {
    true
}

/// The state on entering a fresh scope inside the current one.
pub open spec fn entered(m: Machine) -> Machine {
    Machine {
        scopes: m.scopes.push(fresh_scope(Some(m.scope as usize))),
        scope: m.scopes.len() as int,
        ..m
    }
}

/// The state on returning to scope `scope`.
pub open spec fn left_to(m: Machine, scope: int) -> Machine {
    Machine { scope, ..m }
}

/// The function value that running declaration `d` in state `m` binds.
pub open spec fn function_value(d: Rc<FunctionDeclaration>, m: Machine) -> Value {
    Value::Function(Function { declaration: d, closure: m.scope as usize, id: m.next_id })
}

/// The identity that the next function declaration will take.
pub open spec fn next_identity(id: u64) -> u64 {
    if id < u64::MAX {
        (id + 1) as u64
    } else {
        id
    }
}

/// An expression's outcome as the outcome of running something: a value comes
/// back the way a `return` carries it.
pub open spec fn lift(r: Result<Value>) -> Result<Flow> {
    match r {
        Ok(v) => Ok(Flow::Return(v)),
        Err(e) => Err(e),
    }
}

/// The expression outcome that `lift` turns into `r`.
pub open spec fn lower(r: Result<Flow>) -> Result<Value> {
    match r {
        Ok(Flow::Return(v)) => Ok(v),
        Ok(Flow::Normal) => Ok(Value::Nil),
        Err(e) => Err(e),
    }
}

/// Evaluating `e` from state `m0` ends in state `m1` with outcome `r`: operands
/// left to right, the first error ending the evaluation, `and`/`or` evaluating
/// their right operand only where the left one does not decide, and a call of
/// a user function running its body in a fresh scope inside the scope the
/// function closes over.
pub open spec fn evaluates(m0: Machine, e: Expr, m1: Machine, r: Result<Value>) -> bool {
    step(m0, Node::Expr(e), m1, lift(r))
}

/// What runs: an expression, one statement, a run of statements in order, or a loop.
pub enum Node {
    Expr(Expr),
    One(Stmt),
    Many(Seq<Stmt>),
    Loop(Expr, Stmt),
}

pub open spec fn node_size(n: Node) -> nat {
    match n {
        Node::Expr(e) => expr_size(e),
        Node::One(s) => stmt_size(s),
        Node::Many(stmts) => stmts_size(stmts),
        Node::Loop(_, _) => 0,
    }
}

/// Running statement `s` from `m0` ends in `m1` with `r`.
pub open spec fn executes(m0: Machine, s: Stmt, m1: Machine, r: Result<Flow>) -> bool {
    step(m0, Node::One(s), m1, r)
}

/// Running statements `stmts` in order from `m0` ends in `m1` with `r`: each
/// statement runs from where the one before it stopped, and the first that
/// fails or returns ends the run.
pub open spec fn runs(m0: Machine, stmts: Seq<Stmt>, m1: Machine, r: Result<Flow>) -> bool {
    step(m0, Node::Many(stmts), m1, r)
}

/// Running `while (condition) body` from `m0`: each round spends a step, then
/// tests the condition, then runs the body.
pub open spec fn loops(m0: Machine, condition: Expr, body: Stmt, m1: Machine, r: Result<Flow>) -> bool {
    step(m0, Node::Loop(condition, body), m1, r)
}

/// Running `n` from `m0` ends in `m1` with `r`.
#[verifier::opaque]
pub open spec fn step(m0: Machine, n: Node, m1: Machine, r: Result<Flow>) -> bool
    decreases m0.budget, node_size(n),
{
    match n {
        Node::Expr(e) => {
            let rv = lower(r);
            &&& r == lift(rv)
            &&& {
            match e {
                Expr::Literal { value } => m1 == m0 && literal_outcome(value, rv),
                Expr::Variable { name } => m1 == m0 && match lookup(m0.scopes, m0.scope, name.text@) {
                    Some(v) => rv == Ok::<Value, Error>(v),
                    None => runtime_error(rv, name.line, "undefined variable "@ + name.text@),
                },
                Expr::Grouping { expr } => step(m0, Node::Expr(*expr), m1, lift(rv)),
                Expr::Unary { operator, right } => {
                    ||| (rv is Err && step(m0, Node::Expr(*right), m1, lift(rv)))
                    ||| exists|v: Value| #[trigger] between(m0, m1, v) && step(m0, Node::Expr(*right), m1, lift(Ok(v))) && unary_outcome(operator, v, rv)
                },
                Expr::Binary { left, operator, right } => {
                    ||| (rv is Err && step(m0, Node::Expr(*left), m1, lift(rv)))
                    ||| exists|mid: Machine, l: Value|
                        #[trigger] between(m0, mid, l) && step(m0, Node::Expr(*left), mid, lift(Ok(l))) && {
                            ||| (rv is Err && mid.budget <= m0.budget && step(mid, Node::Expr(*right), m1, lift(rv)))
                            ||| exists|v: Value|
                                #[trigger] between(mid, m1, v) && mid.budget <= m0.budget && step(mid, Node::Expr(*right), m1, lift(Ok(v))) && binary_outcome(operator, l, v, rv)
                        }
                },
                Expr::LogicOr { left, right, .. } => {
                    ||| (rv is Err && step(m0, Node::Expr(*left), m1, lift(rv)))
                    ||| exists|mid: Machine, l: Value|
                        #[trigger] between(m0, mid, l) && step(m0, Node::Expr(*left), mid, lift(Ok(l))) && if truthy(l) {
                            m1 == mid && rv == Ok::<Value, Error>(l)
                        } else {
                            mid.budget <= m0.budget && step(mid, Node::Expr(*right), m1, lift(rv))
                        }
                },
                Expr::LogicAnd { left, right, .. } => {
                    ||| (rv is Err && step(m0, Node::Expr(*left), m1, lift(rv)))
                    ||| exists|mid: Machine, l: Value|
                        #[trigger] between(m0, mid, l) && step(m0, Node::Expr(*left), mid, lift(Ok(l))) && if truthy(l) {
                            mid.budget <= m0.budget && step(mid, Node::Expr(*right), m1, lift(rv))
                        } else {
                            m1 == mid && rv == Ok::<Value, Error>(l)
                        }
                },
                Expr::Assignment { name, value } => {
                    ||| (rv is Err && step(m0, Node::Expr(*value), m1, lift(rv)))
                    ||| exists|mid: Machine, v: Value|
                        #[trigger] between(m0, mid, v) && step(m0, Node::Expr(*value), mid, lift(Ok(v))) && match lookup(mid.scopes, mid.scope, name.text@) {
                            Some(_) => rv == Ok::<Value, Error>(v) && m1 == Machine {
                                scopes: assigned(mid.scopes, mid.scope, name.text@, v),
                                ..mid
                            },
                            None => m1 == mid && runtime_error(rv, name.line, "undefined variable "@ + name.text@),
                        }
                },
                Expr::Call { callee, paren, args } => {
                    proof {
                        lemma_exprs_size(args@);
                    }
                    ||| (rv is Err && step(m0, Node::Expr(*callee), m1, lift(rv)))
                    ||| exists|mid: Machine, f: Value|
                        #[trigger] between(m0, mid, f) && step(m0, Node::Expr(*callee), mid, lift(Ok(f))) && exists|
                            ms: Seq<Machine>,
                            vs: Seq<Value>,
                        |
                            #[trigger] argument_run(ms, vs) && ms.len() == vs.len() + 1 && ms[0] == mid
                                && vs.len() <= args@.len() && (forall|i: int|
                                0 <= i < vs.len() ==> ms[i].budget <= m0.budget && step(#[trigger] ms[i], Node::Expr(args@[i]), ms[i + 1], lift(Ok(vs[i]))))
                                && if vs.len() < args@.len() {
                                rv matches Err(err) && ms[vs.len() as int].budget <= m0.budget && step(ms[vs.len() as int], Node::Expr(args@[vs.len() as int]), m1, lift(Err(err)))
                            } else if call_check(f, vs.len(), paren.line, Ok(())) {
                                let m2 = ms[vs.len() as int];
                                &&& call_outcome(f, m2, m1, rv)
                                &&& (f is Function && m2.budget == 0 ==> m1 == m2 && rv is Err)
                                &&& (f is Function && 0 < m2.budget <= m0.budget && f->Function_0.closure
                                    < m2.scopes.len() ==> exists|mk: Machine, flow: Result<Flow>|
                                    #[trigger] call_ran(mk, flow) && step(
                                        call_entry(f->Function_0, vs, m2),
                                        Node::Many(f->Function_0.declaration.body@),
                                        mk,
                                        flow,
                                    ) && m1 == left_to(mk, m2.scope) && rv == function_result(flow))
                            } else {
                                m1 == ms[vs.len() as int] && (rv matches Err(err) && call_check(f, vs.len(), paren.line, Err(err)))
                            }
                },
            }
            }
        },
        Node::Many(stmts) => {
            exists|ms: Seq<Machine>|
                #[trigger] statement_run(ms) && 1 <= ms.len() <= stmts.len() + 1 && ms[0] == m0 && (forall|i: int|
                    0 <= i < ms.len() - 1 ==> ms[i].budget <= m0.budget && {
                        proof {
                            lemma_stmts_size(stmts);
                        }
                        step(#[trigger] ms[i], Node::One(stmts[i]), ms[i + 1], Ok(Flow::Normal))
                    }) && if ms.len() == stmts.len() + 1 {
                    m1 == ms[ms.len() - 1] && r == Ok::<Flow, Error>(Flow::Normal)
                } else {
                    let k = ms.len() - 1;
                    &&& ms[k].budget <= m0.budget
                    &&& r != Ok::<Flow, Error>(Flow::Normal)
                    &&& {
                        proof {
                            lemma_stmts_size(stmts);
                        }
                        step(ms[k], Node::One(stmts[k]), m1, r)
                    }
                }
        },
        Node::Loop(condition, body) => {
            if m0.budget == 0 {
                m1 == m0 && (r matches Err(err) && err is RuntimeError)
            } else {
                let m = Machine { budget: (m0.budget - 1) as nat, ..m0 };
                ||| (r matches Err(err) && step(m, Node::Expr(condition), m1, lift(Err(err))))
                ||| exists|mid: Machine, c: Value|
                    #[trigger] between(m, mid, c) && step(m, Node::Expr(condition), mid, lift(Ok(c))) && mid.budget <= m.budget
                        && if !truthy(c) {
                        m1 == mid && r == Ok::<Flow, Error>(Flow::Normal)
                    } else {
                        ||| (r != Ok::<Flow, Error>(Flow::Normal) && step(mid, Node::One(body), m1, r))
                        ||| exists|m2: Machine|
                            #[trigger] resumed(m2) && step(mid, Node::One(body), m2, Ok(Flow::Normal)) && m2.budget
                                <= mid.budget && step(m2, Node::Loop(condition, body), m1, r)
                    }
            }
        },
        Node::One(s) => {
            match s {
                Stmt::Expression { expr } => {
                    ||| (r matches Err(err) && step(m0, Node::Expr(*expr), m1, lift(Err(err))))
                    ||| (r == Ok::<Flow, Error>(Flow::Normal) && exists|v: Value|
                        #[trigger] between(m0, m1, v) && step(m0, Node::Expr(*expr), m1, lift(Ok(v))))
                },
                Stmt::Print { expr } => {
                    ||| (r matches Err(err) && step(m0, Node::Expr(*expr), m1, lift(Err(err))))
                    ||| exists|mid: Machine, v: Value|
                        #[trigger] between(m0, mid, v) && step(m0, Node::Expr(*expr), mid, lift(Ok(v))) && r == Ok::<
                            Flow,
                            Error,
                        >(Flow::Normal) && m1 == Machine { printed: mid.printed.push(v), ..mid }
                },
                Stmt::VariableDeclaration { name, initializer } => match initializer {
                    None => r == Ok::<Flow, Error>(Flow::Normal) && m1 == Machine {
                        scopes: defined(m0.scopes, m0.scope, name.text@, Value::Nil),
                        ..m0
                    },
                    Some(e) => {
                        ||| (r matches Err(err) && step(m0, Node::Expr(*e), m1, lift(Err(err))))
                        ||| exists|mid: Machine, v: Value|
                            #[trigger] between(m0, mid, v) && step(m0, Node::Expr(*e), mid, lift(Ok(v))) && r == Ok::<
                                Flow,
                                Error,
                            >(Flow::Normal) && m1 == Machine {
                                scopes: defined(mid.scopes, mid.scope, name.text@, v),
                                ..mid
                            }
                    },
                },
                Stmt::FunctionDeclaration(d) => r == Ok::<Flow, Error>(Flow::Normal) && m1 == Machine {
                    scopes: defined(m0.scopes, m0.scope, d.name.text@, function_value(d, m0)),
                    next_id: next_identity(m0.next_id),
                    ..m0
                },
                Stmt::Return { value, .. } => match value {
                    None => m1 == m0 && r == Ok::<Flow, Error>(Flow::Return(Value::Nil)),
                    Some(e) => {
                        ||| (r matches Err(err) && step(m0, Node::Expr(*e), m1, lift(Err(err))))
                        ||| exists|v: Value|
                            #[trigger] between(m0, m1, v) && step(m0, Node::Expr(*e), m1, lift(Ok(v))) && r == Ok::<
                                Flow,
                                Error,
                            >(Flow::Return(v))
                    },
                },
                Stmt::If { condition, then_branch, else_branch } => {
                    ||| (r matches Err(err) && step(m0, Node::Expr(*condition), m1, lift(Err(err))))
                    ||| exists|mid: Machine, c: Value|
                        #[trigger] between(m0, mid, c) && step(m0, Node::Expr(*condition), mid, lift(Ok(c))) && mid.budget
                            <= m0.budget && if truthy(c) {
                            step(mid, Node::One(*then_branch), m1, r)
                        } else {
                            match else_branch {
                                Some(e) => step(mid, Node::One(*e), m1, r),
                                None => m1 == mid && r == Ok::<Flow, Error>(Flow::Normal),
                            }
                        }
                },
                Stmt::While { condition, body } => step(m0, Node::Loop(*condition, *body), m1, r),
                Stmt::Block { stmts } => exists|mk: Machine|
                    #[trigger] resumed(mk) && step(entered(m0), Node::Many(stmts@), mk, r) && m1 == left_to(mk, m0.scope),
            }
        },
    }
}

/// The expression that statement `s` evaluates first, if any.
pub open spec fn first_expr(s: Stmt) -> Option<Expr> {
    match s {
        Stmt::Expression { expr } => Some(*expr),
        Stmt::Print { expr } => Some(*expr),
        Stmt::VariableDeclaration { initializer: Some(e), .. } => Some(*e),
        Stmt::Return { value: Some(e), .. } => Some(*e),
        Stmt::If { condition, .. } => Some(*condition),
        _ => None,
    }
}

pub(crate) proof fn lemma_exec_first_fails(m0: Machine, s: Stmt, m1: Machine, err: Error)
    requires
        first_expr(s) matches Some(e) && evaluates(m0, e, m1, Err(err)),
    ensures
        executes(m0, s, m1, Err(err)),
{
    reveal(step);
}

/// The statements whose outcome follows from one evaluation giving `v` in `mid`.
pub(crate) proof fn lemma_exec_after(m0: Machine, s: Stmt, mid: Machine, v: Value, m1: Machine, r: Result<Flow>)
    requires
        match s {
            Stmt::Expression { expr } => evaluates(m0, *expr, m1, Ok(v)) && r == Ok::<Flow, Error>(
                Flow::Normal,
            ),
            Stmt::Print { expr } => evaluates(m0, *expr, mid, Ok(v)) && r == Ok::<Flow, Error>(
                Flow::Normal,
            ) && m1 == Machine { printed: mid.printed.push(v), ..mid },
            Stmt::VariableDeclaration { name, initializer: Some(e) } => evaluates(m0, *e, mid, Ok(v))
                && r == Ok::<Flow, Error>(Flow::Normal) && m1 == Machine {
                scopes: defined(mid.scopes, mid.scope, name.text@, v),
                ..mid
            },
            Stmt::Return { value: Some(e), .. } => evaluates(m0, *e, m1, Ok(v)) && r == Ok::<
                Flow,
                Error,
            >(Flow::Return(v)),
            Stmt::If { condition, then_branch, else_branch } => {
                &&& evaluates(m0, *condition, mid, Ok(v))
                &&& mid.budget <= m0.budget
                &&& if truthy(v) {
                    executes(mid, *then_branch, m1, r)
                } else {
                    match else_branch {
                        Some(e) => executes(mid, *e, m1, r),
                        None => m1 == mid && r == Ok::<Flow, Error>(Flow::Normal),
                    }
                }
            },
            _ => false,
        },
    ensures
        executes(m0, s, m1, r),
{
    reveal(step);
    assert(between(m0, mid, v));
    assert(between(m0, m1, v));
}

/// The statements that evaluate nothing, and loops and blocks, by their parts.
pub(crate) proof fn lemma_exec_plain(m0: Machine, s: Stmt, mk: Machine, m1: Machine, r: Result<Flow>)
    requires
        match s {
            Stmt::VariableDeclaration { name, initializer: None } => r == Ok::<Flow, Error>(
                Flow::Normal,
            ) && m1 == Machine {
                scopes: defined(m0.scopes, m0.scope, name.text@, Value::Nil),
                ..m0
            },
            Stmt::FunctionDeclaration(d) => r == Ok::<Flow, Error>(Flow::Normal) && m1 == Machine {
                scopes: defined(m0.scopes, m0.scope, d.name.text@, function_value(d, m0)),
                next_id: next_identity(m0.next_id),
                ..m0
            },
            Stmt::Return { value: None, .. } => m1 == m0 && r == Ok::<Flow, Error>(
                Flow::Return(Value::Nil),
            ),
            Stmt::While { condition, body } => loops(m0, *condition, *body, m1, r),
            Stmt::Block { stmts } => runs(entered(m0), stmts@, mk, r) && m1 == left_to(mk, m0.scope),
            _ => false,
        },
    ensures
        executes(m0, s, m1, r),
{
    reveal(step);
    assert(resumed(mk));
}

/// A loop with no step left stops with an error.
pub(crate) proof fn lemma_loop_exhausted(m0: Machine, condition: Expr, body: Stmt, r: Result<Flow>)
    requires
        m0.budget == 0,
        r matches Err(err) && err is RuntimeError,
    ensures
        loops(m0, condition, body, m0, r),
{
    reveal(step);
}

/// One round of a loop: the step spent, the condition evaluated (to `c` in
/// `mid`, or an error), and then the end of the loop, or the body stopping it.
pub(crate) proof fn lemma_loop_round(
    m0: Machine,
    condition: Expr,
    body: Stmt,
    mid: Machine,
    c: Result<Value>,
    m1: Machine,
    r: Result<Flow>,
)
    requires
        m0.budget > 0,
        match c {
            Err(err) => evaluates(Machine { budget: (m0.budget - 1) as nat, ..m0 }, condition, m1, Err(err))
                && r == Err::<Flow, Error>(err),
            Ok(v) => {
                &&& evaluates(Machine { budget: (m0.budget - 1) as nat, ..m0 }, condition, mid, Ok(v))
                &&& mid.budget < m0.budget
                &&& if truthy(v) {
                    r != Ok::<Flow, Error>(Flow::Normal) && executes(mid, body, m1, r)
                } else {
                    m1 == mid && r == Ok::<Flow, Error>(Flow::Normal)
                }
            },
        },
    ensures
        loops(m0, condition, body, m1, r),
{
    reveal(step);
    if let Ok(v) = c {
        assert(between(Machine { budget: (m0.budget - 1) as nat, ..m0 }, mid, v));
    }
}

/// A round whose body ran normally: the loop goes on from where it left off.
pub(crate) proof fn lemma_loop_again(
    m0: Machine,
    condition: Expr,
    body: Stmt,
    mid: Machine,
    v: Value,
    m2: Machine,
)
    requires
        m0.budget > 0,
        evaluates(Machine { budget: (m0.budget - 1) as nat, ..m0 }, condition, mid, Ok(v)),
        mid.budget < m0.budget,
        truthy(v),
        executes(mid, body, m2, Ok(Flow::Normal)),
        m2.budget <= mid.budget,
    ensures
        forall|m1: Machine, r: Result<Flow>|
            #[trigger] loops(m2, condition, body, m1, r) ==> loops(m0, condition, body, m1, r),
{
    assert forall|m1: Machine, r: Result<Flow>| #[trigger]
        loops(m2, condition, body, m1, r) implies loops(m0, condition, body, m1, r) by {
        reveal(step);
        assert(between(Machine { budget: (m0.budget - 1) as nat, ..m0 }, mid, v));
        assert(resumed(m2));
    }
}

/// A run of statements that all ran normally, through the states `ms`.
pub(crate) proof fn lemma_runs_done(m0: Machine, stmts: Seq<Stmt>, ms: Seq<Machine>)
    requires
        ms.len() == stmts.len() + 1,
        ms[0] == m0,
        forall|i: int|
            0 <= i < ms.len() - 1 ==> ms[i].budget <= m0.budget && executes(
                #[trigger] ms[i],
                stmts[i],
                ms[i + 1],
                Ok(Flow::Normal),
            ),
    ensures
        runs(m0, stmts, ms[ms.len() - 1], Ok(Flow::Normal)),
{
    reveal(step);
    assert(statement_run(ms));
}

/// A run of statements where statement `ms.len() - 1` stopped it with `r`.
pub(crate) proof fn lemma_runs_stop(m0: Machine, stmts: Seq<Stmt>, ms: Seq<Machine>, m1: Machine, r: Result<Flow>)
    requires
        1 <= ms.len() <= stmts.len(),
        ms[0] == m0,
        forall|i: int|
            0 <= i < ms.len() - 1 ==> ms[i].budget <= m0.budget && executes(
                #[trigger] ms[i],
                stmts[i],
                ms[i + 1],
                Ok(Flow::Normal),
            ),
        ms[ms.len() - 1].budget <= m0.budget,
        executes(ms[ms.len() - 1], stmts[ms.len() - 1], m1, r),
        r != Ok::<Flow, Error>(Flow::Normal),
    ensures
        runs(m0, stmts, m1, r),
{
    reveal(step);
    assert(statement_run(ms));
}

/// The names of a function's parameters, in order.
pub open spec fn param_names(params: Seq<Token>) -> Seq<Seq<char>> {
    params.map_values(|t: Token| t.text@)
}

/// The arena after binding the first `n` of `names` to the values `vs`, in order,
/// in scope `at`.
pub open spec fn params_bound(
    scopes: Seq<ScopeView>,
    at: int,
    names: Seq<Seq<char>>,
    vs: Seq<Value>,
    n: nat,
) -> Seq<ScopeView>
    decreases n,
{
    if n == 0 {
        scopes
    } else {
        defined(params_bound(scopes, at, names, vs, (n - 1) as nat), at, names[n - 1], vs[n - 1])
    }
}

/// The state in which the body of `func` starts when called from `m0` with the
/// arguments `vs`: one step spent, and a fresh scope inside the scope the
/// function closes over, holding the parameters bound to the arguments.
pub open spec fn call_entry(func: Function, vs: Seq<Value>, m0: Machine) -> Machine {
    let at = m0.scopes.len() as int;
    Machine {
        scopes: params_bound(
            m0.scopes.push(fresh_scope(Some(func.closure))),
            at,
            param_names(func.declaration.params@),
            vs,
            vs.len(),
        ),
        scope: at,
        budget: (m0.budget - 1) as nat,
        ..m0
    }
}

/// Binding parameters changes no scope's links and adds no scope.
pub proof fn lemma_params_bound_shape(
    scopes: Seq<ScopeView>,
    at: int,
    names: Seq<Seq<char>>,
    vs: Seq<Value>,
    n: nat,
)
    requires
        0 <= at < scopes.len(),
    ensures
        params_bound(scopes, at, names, vs, n).len() == scopes.len(),
        forall|j: int|
            0 <= j < scopes.len() ==> (#[trigger] params_bound(scopes, at, names, vs, n)[j]).enclosing
                == scopes[j].enclosing,
    decreases n,
{
    if n > 0 {
        lemma_params_bound_shape(scopes, at, names, vs, (n - 1) as nat);
    }
}

/// What a call gives for the way its body ended: the value of a `return`,
/// `nil` where the body ran to its end, or the body's error.
pub open spec fn function_result(flow: Result<Flow>) -> Result<Value> {
    match flow {
        Ok(Flow::Return(v)) => Ok(v),
        Ok(Flow::Normal) => Ok(Value::Nil),
        Err(e) => Err(e),
    }
}

/// A marker naming where a function body stopped and how.
pub open spec fn call_ran(mk: Machine, flow: Result<Flow>) -> bool {
    true
}

/// The number that the clock gives for a reading of `millis` milliseconds.
pub open spec fn clock_reading(millis: u64) -> u64 {
    quotient_of(integer_value_of(millis), integer_value_of(1000))
}

/// `false and x` and `nil and x` give their left operand and change nothing,
/// whatever `x` is: the right operand is never evaluated, so it raises no error.
pub proof fn lemma_and_short_circuits(
    m0: Machine,
    value: Token,
    operator: Token,
    right: Expr,
    m1: Machine,
    r: Result<Value>,
)
    requires
        evaluates(
            m0,
            Expr::LogicAnd {
                left: Box::new(Expr::Literal { value }),
                operator,
                right: Box::new(right),
            },
            m1,
            r,
        ),
        value.token_type is False || value.token_type is Nil,
    ensures
        m1 == m0,
        value.token_type is False ==> r == Ok::<Value, Error>(Value::Boolean(false)),
        value.token_type is Nil ==> r == Ok::<Value, Error>(Value::Nil),
{
    reveal_with_fuel(step, 2);
}

/// `true or x` gives `true` and changes nothing, whatever `x` is.
pub proof fn lemma_or_short_circuits(
    m0: Machine,
    value: Token,
    operator: Token,
    right: Expr,
    m1: Machine,
    r: Result<Value>,
)
    requires
        evaluates(
            m0,
            Expr::LogicOr {
                left: Box::new(Expr::Literal { value }),
                operator,
                right: Box::new(right),
            },
            m1,
            r,
        ),
        value.token_type is True,
    ensures
        m1 == m0,
        r == Ok::<Value, Error>(Value::Boolean(true)),
{
    reveal_with_fuel(step, 2);
}

} // verus!
