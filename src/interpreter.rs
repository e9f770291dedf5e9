//! The tree-walking evaluator. Statements run against the scope arena; each
//! block and each call opens a fresh scope and restores the caller's scope on
//! every way out, errors included. Every loop iteration and every call spends
//! one step of a 64-bit budget, which bounds the evaluator's recursion.
use crate::environment::{
    assigned, defined, fresh_scope, lemma_assign_then_lookup, lemma_define_then_lookup, lemma_resolve_in,
    lookup, Environment, ScopeView,
};
use crate::error::{Error, Result};
use crate::expr::Expr;
use crate::number::{div_bits, integer_bits, integer_value_of, quotient_of};
use crate::operators::{binary_op, check_call, literal_value, unary_op};
use crate::semantics::{
    Flow, Machine, call_entry, call_outcome, call_ran, clock_reading, ended, entered, evaluates,
    executes, expr_size, function_result, function_value, left_to, lemma_eval_assignment,
    lemma_eval_call, lemma_eval_leaf, lemma_eval_second, lemma_eval_unary, lemma_exec_after,
    lemma_exec_first_fails, lemma_exec_plain, lemma_exprs_size, lemma_first_fails, lemma_loop_again,
    lemma_loop_exhausted, lemma_loop_round, lemma_params_bound_shape, lemma_runs_done,
    lemma_runs_stop, lemma_stmts_size, literal_outcome, loops, next_identity, param_names,
    params_bound, reaches, resumed, runs, stmt_size, stmts_size,
};
use crate::stmt::Stmt;
use crate::token::Token;
use crate::value::{Function, Native, NativeFunction, Value};
use std::rc::Rc;
use std::time::SystemTime;
use vstd::prelude::*;

verus! {

/// Relies on `SystemTime::elapsed` on `UNIX_EPOCH`: the time since the epoch,
/// in whole milliseconds; `None` where the clock reads earlier than the epoch.
/// What comes back depends on the moment of the call, so nothing is promised of it.
#[verifier::external_body]
fn unix_time_millis() -> (r: Option<u64>) {
    match SystemTime::UNIX_EPOCH.elapsed() {
        Ok(d) => Some(d.as_millis() as u64),
        Err(_) => None,
    }
}

/// A time in milliseconds as a number of seconds.
pub fn clock_seconds(millis: u64) -> (r: u64)
    ensures
        r == quotient_of(integer_value_of(millis), integer_value_of(1000)),
{
    div_bits(integer_bits(millis), integer_bits(1000))
}

/// Runs a host function.
fn call_native(n: &NativeFunction, line: usize) -> (r: Result<Value>)
    ensures
        r is Ok ==> exists|millis: u64|
            r == Ok::<Value, Error>(Value::Number(#[trigger] clock_reading(millis))),
        r matches Err(e) ==> e is RuntimeError,
{
    match n.native {
        Native::Clock => match unix_time_millis() {
            Some(ms) => {
                let r = Ok(Value::Number(clock_seconds(ms)));
                assert(r == Ok::<Value, Error>(Value::Number(clock_reading(ms))));
                r
            },
            None => Err(
                Error::RuntimeError { line, msg: String::from_str("the clock reads before the epoch") },
            ),
        },
    }
}

/// The line of the first token that an expression holds.
fn expr_line(e: &Expr) -> (r: usize)
    decreases e,
{
    match e {
        Expr::Binary { left, .. } => expr_line(left),
        Expr::Unary { operator, .. } => operator.line,
        Expr::Call { callee, .. } => expr_line(callee),
        Expr::Grouping { expr } => expr_line(expr),
        Expr::Literal { value } => value.line,
        Expr::Variable { name } => name.line,
        Expr::Assignment { name, .. } => name.line,
        Expr::LogicOr { left, .. } => expr_line(left),
        Expr::LogicAnd { left, .. } => expr_line(left),
    }
}

fn budget_error(line: usize) -> (r: Error)
    ensures
        r is RuntimeError,
{
    Error::RuntimeError { line, msg: String::from_str("step budget exhausted") }
}

/// Runs programs; keeps its scopes, and so its declarations, from one program
/// to the next.
pub struct Interpreter {
    env: Environment,
    current: usize,
    output: Vec<Value>,
    next_id: u64,
    steps: u64,
}

impl Interpreter {
    pub closed spec fn wf(&self) -> bool {
        &&& self.env.wf()
        &&& self.current < self.env.view().len()
    }

    /// The scope arena.
    pub closed spec fn scopes(&self) -> Seq<ScopeView> {
        self.env.view()
    }

    /// The index of the scope that code runs in now.
    pub closed spec fn scope(&self) -> int {
        self.current as int
    }

    /// What `print` has written and nobody has taken yet.
    pub closed spec fn printed(&self) -> Seq<Value> {
        self.output@
    }

    /// The steps left to spend.
    pub closed spec fn budget(&self) -> nat {
        self.steps as nat
    }

    /// Everything running code can see and change.
    pub closed spec fn view(&self) -> Machine {
        Machine {
            scopes: self.env.view(),
            scope: self.current as int,
            printed: self.output@,
            budget: self.steps as nat,
            next_id: self.next_id,
        }
    }

    /// `self` is a well-formed state that running code reached from `before`.
    pub open spec fn follows(&self, before: &Interpreter) -> bool {
        &&& self.wf()
        &&& reaches(before.view(), self.view())
    }

    /// An interpreter whose global scope holds the host function `clock`.
    pub fn new() -> (r: Interpreter)
        ensures
            r.wf(),
            r.scope() == 0,
            r.printed().len() == 0,
            r.scopes().len() == 1,
            r.scopes()[0].enclosing is None,
            r.scopes()[0].names == seq!["clock"@],
            r.scopes()[0].values.len() == 1,
            r.scopes()[0].values[0] matches Value::NativeFunction(n) && n.arity == 0 && n.name@
                == "clock"@ && n.native == Native::Clock,
            lookup(r.scopes(), 0, "clock"@) == Some(r.scopes()[0].values[0]),
    {
        let mut env = Environment::new();
        let name = String::from_str("clock");
        let clock = Value::NativeFunction(
            NativeFunction { arity: 0, name: String::from_str("clock"), native: Native::Clock },
        );
        let ghost before = env.view();
        let ghost v = clock;
        env.define(0, &name, clock);
        proof {
            lemma_define_then_lookup(before, 0, name@, v);
        }
        Interpreter { env, current: 0, output: Vec::new(), next_id: 0, steps: u64::MAX }
    }

    /// Runs statements in order in the current scope; stops at the first error
    /// or at a `return`.
    pub fn interpret(&mut self, stmts: Vec<Stmt>) -> (r: Result<()>)
        requires
            old(self).wf(),
        ensures
            final(self).follows(old(self)),
            r matches Err(e) ==> e is RuntimeError,
            match r {
                Ok(()) => exists|f: Flow|
                    #[trigger] ended(f) && runs(old(self).view(), stmts@, final(self).view(), Ok(f)),
                Err(e) => runs(old(self).view(), stmts@, final(self).view(), Err(e)),
            },
    {
        match self.execute_stmts(&stmts) {
            Ok(f) => {
                proof {
                    assert(ended(f));
                }
                Ok(())
            },
            Err(e) => Err(e),
        }
    }

    /// Hands over what `print` has written so far, oldest first.
    pub fn take_output(&mut self) -> (r: Vec<Value>)
        requires
            old(self).wf(),
        ensures
            final(self).wf(),
            r@ == old(self).printed(),
            final(self).printed().len() == 0,
            final(self).scopes() == old(self).scopes(),
            final(self).scope() == old(self).scope(),
    {
        let mut out: Vec<Value> = Vec::new();
        std::mem::swap(&mut out, &mut self.output);
        out
    }

    /// Evaluates an expression in the current scope, as `evaluates` describes.
    #[verifier::spinoff_prover]
    pub fn evaluate(&mut self, expr: &Expr) -> (r: Result<Value>)
        requires
            old(self).wf(),
        ensures
            final(self).follows(old(self)),
            r matches Err(e) ==> e is RuntimeError,
            *expr matches Expr::Literal { value } ==> literal_outcome(value, r),
            *expr matches Expr::Variable { name } ==> match lookup(
                old(self).scopes(),
                old(self).scope(),
                name.text@,
            ) {
                Some(v) => r == Ok::<Value, Error>(v),
                None => r is Err,
            },
            *expr matches Expr::Assignment { name, .. } ==> (r matches Ok(v) ==> lookup(
                final(self).scopes(),
                final(self).scope(),
                name.text@,
            ) == Some(v)),
            evaluates(old(self).view(), *expr, final(self).view(), r),
        decreases old(self).budget(), expr_size(*expr),
    {
        let ghost m0 = self.view();
        match expr {
            Expr::Literal { value } => {
                let r = literal_value(value);
                proof {
                    lemma_eval_leaf(m0, *expr, self.view(), r);
                }
                r
            },
            Expr::Variable { name } => {
                let r = self.env.get(self.current, name);
                proof {
                    lemma_eval_leaf(m0, *expr, self.view(), r);
                }
                r
            },
            Expr::Grouping { expr: inner } => {
                let r = self.evaluate(inner);
                proof {
                    lemma_eval_leaf(m0, *expr, self.view(), r);
                }
                r
            },
            Expr::Unary { operator, right } => {
                let v = match self.evaluate(right) {
                    Ok(v) => v,
                    Err(e) => {
                        proof {
                            lemma_first_fails(m0, *expr, self.view(), e);
                        }
                        return Err(e);
                    },
                };
                let r = unary_op(operator, v);
                proof {
                    lemma_eval_unary(m0, *expr, v, self.view(), r);
                }
                r
            },
            Expr::Binary { left, operator, right } => {
                let l = match self.evaluate(left) {
                    Ok(v) => v,
                    Err(e) => {
                        proof {
                            lemma_first_fails(m0, *expr, self.view(), e);
                        }
                        return Err(e);
                    },
                };
                let ghost mid = self.view();
                let v = self.evaluate(right);
                let ghost vr = v;
                let r = match v {
                    Ok(x) => binary_op(operator, l, x),
                    Err(e) => Err(e),
                };
                proof {
                    lemma_eval_second(m0, *expr, mid, l, vr, self.view(), r);
                }
                r
            },
            Expr::Assignment { name, value } => {
                let v = match self.evaluate(value) {
                    Ok(v) => v,
                    Err(e) => {
                        proof {
                            lemma_first_fails(m0, *expr, self.view(), e);
                        }
                        return Err(e);
                    },
                };
                let ghost mid = self.view();
                proof {
                    lemma_resolve_in(self.env.view(), self.current as int, name.text@);
                    self.env.lemma_chain_wf();
                }
                let ghost before = self.env.view();
                let ghost value = v;
                let r = self.env.assign(self.current, name, v);
                proof {
                    if r is Ok {
                        lemma_assign_then_lookup(before, self.current as int, name.text@, value);
                        assert(self.view() == Machine {
                            scopes: assigned(mid.scopes, mid.scope, name.text@, value),
                            ..mid
                        });
                    } else {
                        assert(self.view() == mid);
                    }
                    lemma_eval_assignment(m0, *expr, mid, value, self.view(), r);
                }
                r
            },
            Expr::LogicOr { left, right, .. } => {
                let v = match self.evaluate(left) {
                    Ok(v) => v,
                    Err(e) => {
                        proof {
                            lemma_first_fails(m0, *expr, self.view(), e);
                        }
                        return Err(e);
                    },
                };
                let ghost mid = self.view();
                let ghost l = v;
                let r = if v.is_truthy() {
                    Ok(v)
                } else {
                    self.evaluate(right)
                };
                proof {
                    lemma_eval_second(m0, *expr, mid, l, r, self.view(), r);
                }
                r
            },
            Expr::LogicAnd { left, right, .. } => {
                let v = match self.evaluate(left) {
                    Ok(v) => v,
                    Err(e) => {
                        proof {
                            lemma_first_fails(m0, *expr, self.view(), e);
                        }
                        return Err(e);
                    },
                };
                let ghost mid = self.view();
                let ghost l = v;
                let r = if v.is_truthy() {
                    self.evaluate(right)
                } else {
                    Ok(v)
                };
                proof {
                    lemma_eval_second(m0, *expr, mid, l, r, self.view(), r);
                }
                r
            },
            Expr::Call { callee, paren, args } => {
                let f = match self.evaluate(callee) {
                    Ok(v) => v,
                    Err(e) => {
                        proof {
                            lemma_first_fails(m0, *expr, self.view(), e);
                        }
                        return Err(e);
                    },
                };
                let ghost mid = self.view();
                let ghost fv = f;
                proof {
                    lemma_exprs_size(args@);
                }
                let ghost mut ms: Seq<Machine> = seq![mid];
                let mut values: Vec<Value> = Vec::new();
                let mut i: usize = 0;
                while i < args.len()
                    invariant
                        self.follows(old(self)),
                        i <= args.len(),
                        values.len() == i,
                        *expr is Call,
                        (*expr)->callee == *callee,
                        (*expr)->args == *args,
                        (*expr)->paren == *paren,
                        forall|j: int| 0 <= j < args.len() ==> expr_size(#[trigger] args@[j]) < expr_size(*expr),
                        m0 == old(self).view(),
                        evaluates(m0, **callee, mid, Ok(fv)),
                        ms.len() == i + 1,
                        ms[0] == mid,
                        ms[i as int] == self.view(),
                        forall|j: int| 0 <= j <= i ==> (#[trigger] ms[j]).budget <= m0.budget,
                        forall|j: int|
                            0 <= j < i ==> evaluates(#[trigger] ms[j], args@[j], ms[j + 1], Ok(values@[j])),
                    decreases args.len() - i,
                {
                    match self.evaluate(&args[i]) {
                        Ok(v) => {
                            values.push(v);
                            proof {
                                ms = ms.push(self.view());
                            }
                        },
                        Err(e) => {
                            proof {
                                lemma_eval_call(m0, *expr, mid, fv, ms, values@, self.view(), Err(e));
                            }
                            return Err(e);
                        },
                    }
                    i = i + 1;
                }
                match check_call(&f, values.len(), paren.line) {
                    Ok(()) => {},
                    Err(e) => {
                        proof {
                            lemma_eval_call(m0, *expr, mid, fv, ms, values@, self.view(), Err(e));
                        }
                        return Err(e);
                    },
                }
                let ghost vs = values@;
                let r = match f {
                    Value::Function(func) => self.call_function(&func, values, paren),
                    Value::NativeFunction(n) => call_native(&n, paren.line),
                    _ => Err(
                        Error::RuntimeError {
                            line: paren.line,
                            msg: String::from_str("can only call functions and classes"),
                        },
                    ),
                };
                proof {
                    lemma_eval_call(m0, *expr, mid, fv, ms, vs, self.view(), r);
                }
                r
            },
        }
    }

    /// Calls a user function: one step spent, one fresh scope inside the scope
    /// it closes over, its parameters bound there in order, then its body; the
    /// result is the value of a `return`, or `nil`.
    fn call_function(&mut self, f: &Function, args: Vec<Value>, paren: &Token) -> (r: Result<Value>)
        requires
            old(self).wf(),
            args.len() == f.declaration.params.len(),
        ensures
            final(self).follows(old(self)),
            r matches Err(e) ==> e is RuntimeError,
            call_outcome(Value::Function(*f), old(self).view(), final(self).view(), r),
            old(self).budget() == 0 ==> final(self).view() == old(self).view() && r is Err,
            old(self).budget() > 0 && f.closure < old(self).scopes().len() ==> exists|
                mk: Machine,
                flow: Result<Flow>,
            |
                #[trigger] call_ran(mk, flow) && runs(
                    call_entry(*f, args@, old(self).view()),
                    f.declaration.body@,
                    mk,
                    flow,
                ) && final(self).view() == left_to(mk, old(self).scope()) && r == function_result(
                    flow,
                ),
        decreases old(self).budget(), 0nat,
    {
        if self.steps == 0 {
            return Err(budget_error(paren.line));
        }
        self.steps = self.steps - 1;
        if f.closure >= self.env.len() {
            return Err(
                Error::RuntimeError { line: paren.line, msg: String::from_str("unknown closure scope") },
            );
        }
        let scope = self.env.push_scope(f.closure);
        let ghost pushed = self.env.view();
        let ghost names = param_names(f.declaration.params@);
        let mut i: usize = 0;
        while i < args.len()
            invariant
                self.wf(),
                scope == old(self).env.view().len(),
                scope < self.env.view().len(),
                self.env.view().len() == pushed.len(),
                pushed == old(self).env.view().push(fresh_scope(Some(f.closure))),
                self.env.view() == params_bound(pushed, scope as int, names, args@, i as nat),
                names == param_names(f.declaration.params@),
                self.current == old(self).current,
                self.output == old(self).output,
                self.next_id == old(self).next_id,
                self.steps == old(self).steps - 1,
                i <= args.len(),
                args.len() == f.declaration.params.len(),
            decreases args.len() - i,
        {
            proof {
                self.env.lemma_chain_wf();
            }
            self.env.define(scope, &f.declaration.params[i].text, args[i].copy());
            assert(names[i as int] == f.declaration.params@[i as int].text@);
            i = i + 1;
        }
        proof {
            assert forall|j: int|
                0 <= j < old(self).env.view().len() implies (#[trigger] self.env.view()[j]).enclosing
                == old(self).env.view()[j].enclosing by {
                lemma_params_bound_shape(pushed, scope as int, names, args@, args@.len());
            }
            lemma_params_bound_shape(pushed, scope as int, names, args@, args@.len());
        }
        let ghost entry = self.view();
        assert(Machine { scope: scope as int, ..entry } == call_entry(*f, args@, old(self).view()));
        let flow = self.execute_block(&f.declaration.body, scope);
        let ghost gf = flow;
        let r = match flow {
            Ok(Flow::Return(v)) => Ok(v),
            Ok(Flow::Normal) => Ok(Value::Nil),
            Err(e) => Err(e),
        };
        proof {
            let mk = choose|mk: Machine|
                #[trigger] resumed(mk) && runs(
                    Machine { scope: scope as int, ..entry },
                    f.declaration.body@,
                    mk,
                    gf,
                ) && self.view() == left_to(mk, entry.scope);
            assert(call_ran(mk, gf));
        }
        r
    }

    /// Runs statements in scope `scope`, then returns to the current scope,
    /// whatever the outcome.
    fn execute_block(&mut self, stmts: &Vec<Stmt>, scope: usize) -> (r: Result<Flow>)
        requires
            old(self).wf(),
            scope < old(self).env.view().len(),
        ensures
            final(self).follows(old(self)),
            r matches Err(e) ==> e is RuntimeError,
            exists|mk: Machine|
                #[trigger] resumed(mk) && runs(
                    Machine { scope: scope as int, ..old(self).view() },
                    stmts@,
                    mk,
                    r,
                ) && final(self).view() == left_to(mk, old(self).scope()),
        decreases old(self).budget(), stmts_size(stmts@) + 1,
    {
        let previous = self.current;
        self.current = scope;
        let r = self.execute_stmts(stmts);
        let ghost mk = self.view();
        self.current = previous;
        proof {
            assert(resumed(mk));
        }
        r
    }

    fn execute_stmts(&mut self, stmts: &Vec<Stmt>) -> (r: Result<Flow>)
        requires
            old(self).wf(),
        ensures
            final(self).follows(old(self)),
            r matches Err(e) ==> e is RuntimeError,
            runs(old(self).view(), stmts@, final(self).view(), r),
        decreases old(self).budget(), stmts_size(stmts@),
    {
        proof {
            lemma_stmts_size(stmts@);
        }
        let ghost m0 = self.view();
        let ghost mut ms: Seq<Machine> = seq![m0];
        let mut i: usize = 0;
        while i < stmts.len()
            invariant
                self.follows(old(self)),
                i <= stmts.len(),
                forall|j: int| 0 <= j < stmts.len() ==> stmt_size(#[trigger] stmts@[j]) < stmts_size(stmts@),
                m0 == old(self).view(),
                ms.len() == i + 1,
                ms[0] == m0,
                ms[i as int] == self.view(),
                forall|j: int|
                    0 <= j < i ==> ms[j].budget <= m0.budget && executes(
                        #[trigger] ms[j],
                        stmts@[j],
                        ms[j + 1],
                        Ok(Flow::Normal),
                    ),
            decreases stmts.len() - i,
        {
            match self.execute(&stmts[i]) {
                Ok(Flow::Normal) => {
                    proof {
                        ms = ms.push(self.view());
                    }
                },
                Ok(Flow::Return(v)) => {
                    proof {
                        lemma_runs_stop(m0, stmts@, ms, self.view(), Ok(Flow::Return(v)));
                    }
                    return Ok(Flow::Return(v));
                },
                Err(e) => {
                    proof {
                        lemma_runs_stop(m0, stmts@, ms, self.view(), Err(e));
                    }
                    return Err(e);
                },
            }
            i = i + 1;
        }
        proof {
            lemma_runs_done(m0, stmts@, ms);
        }
        Ok(Flow::Normal)
    }

    fn execute(&mut self, stmt: &Stmt) -> (r: Result<Flow>)
        requires
            old(self).wf(),
        ensures
            final(self).follows(old(self)),
            r matches Err(e) ==> e is RuntimeError,
            *stmt matches Stmt::VariableDeclaration { name, initializer: None } ==> r is Ok
                && final(self).scopes() == defined(
                old(self).scopes(),
                old(self).scope(),
                name.text@,
                Value::Nil,
            ),
            *stmt matches Stmt::FunctionDeclaration(d) ==> r is Ok && (lookup(
                final(self).scopes(),
                final(self).scope(),
                d.name.text@,
            ) matches Some(Value::Function(f)) && f.declaration == d && f.closure == old(self).scope()),
            executes(old(self).view(), *stmt, final(self).view(), r),
        decreases old(self).budget(), stmt_size(*stmt),
    {
        let ghost m0 = self.view();
        match stmt {
            Stmt::Expression { expr } => match self.evaluate(expr) {
                Ok(v) => {
                    proof {
                        lemma_exec_after(m0, *stmt, m0, v, self.view(), Ok(Flow::Normal));
                    }
                    Ok(Flow::Normal)
                },
                Err(e) => {
                    proof {
                        lemma_exec_first_fails(m0, *stmt, self.view(), e);
                    }
                    Err(e)
                },
            },
            Stmt::Print { expr } => match self.evaluate(expr) {
                Ok(v) => {
                    let ghost mid = self.view();
                    let ghost gv = v;
                    self.output.push(v);
                    proof {
                        assert(self.view() == Machine { printed: mid.printed.push(gv), ..mid });
                        lemma_exec_after(m0, *stmt, mid, gv, self.view(), Ok(Flow::Normal));
                    }
                    Ok(Flow::Normal)
                },
                Err(e) => {
                    proof {
                        lemma_exec_first_fails(m0, *stmt, self.view(), e);
                    }
                    Err(e)
                },
            },
            Stmt::VariableDeclaration { name, initializer } => match initializer {
                Some(e) => match self.evaluate(e) {
                    Ok(v) => {
                        let ghost mid = self.view();
                        let ghost gv = v;
                        self.env.define(self.current, &name.text, v);
                        proof {
                            assert(self.view() == Machine {
                                scopes: defined(mid.scopes, mid.scope, name.text@, gv),
                                ..mid
                            });
                            lemma_exec_after(m0, *stmt, mid, gv, self.view(), Ok(Flow::Normal));
                        }
                        Ok(Flow::Normal)
                    },
                    Err(err) => {
                        proof {
                            lemma_exec_first_fails(m0, *stmt, self.view(), err);
                        }
                        Err(err)
                    },
                },
                None => {
                    self.env.define(self.current, &name.text, Value::Nil);
                    proof {
                        assert(self.view() == Machine {
                            scopes: defined(m0.scopes, m0.scope, name.text@, Value::Nil),
                            ..m0
                        });
                        lemma_exec_plain(m0, *stmt, m0, self.view(), Ok(Flow::Normal));
                    }
                    Ok(Flow::Normal)
                },
            },
            Stmt::FunctionDeclaration(decl) => {
                let id = self.next_id;
                if self.next_id < u64::MAX {
                    self.next_id = self.next_id + 1;
                }
                let f = Value::Function(
                    Function { declaration: Rc::clone(decl), closure: self.current, id },
                );
                let ghost before = self.env.view();
                let ghost v = f;
                self.env.define(self.current, &decl.name.text, f);
                proof {
                    old(self).env.lemma_chain_wf();
                    lemma_define_then_lookup(before, self.current as int, decl.name.text@, v);
                    assert(v == function_value(*decl, m0));
                    assert(self.view() == Machine {
                        scopes: defined(m0.scopes, m0.scope, decl.name.text@, function_value(*decl, m0)),
                        next_id: next_identity(m0.next_id),
                        ..m0
                    });
                    lemma_exec_plain(m0, *stmt, m0, self.view(), Ok(Flow::Normal));
                }
                Ok(Flow::Normal)
            },
            Stmt::Return { value, .. } => match value {
                Some(e) => match self.evaluate(e) {
                    Ok(v) => {
                        proof {
                            lemma_exec_after(m0, *stmt, m0, v, self.view(), Ok(Flow::Return(v)));
                        }
                        Ok(Flow::Return(v))
                    },
                    Err(err) => {
                        proof {
                            lemma_exec_first_fails(m0, *stmt, self.view(), err);
                        }
                        Err(err)
                    },
                },
                None => {
                    proof {
                        lemma_exec_plain(m0, *stmt, m0, self.view(), Ok(Flow::Return(Value::Nil)));
                    }
                    Ok(Flow::Return(Value::Nil))
                },
            },
            Stmt::If { condition, then_branch, else_branch } => {
                let c = match self.evaluate(condition) {
                    Ok(c) => c,
                    Err(e) => {
                        proof {
                            lemma_exec_first_fails(m0, *stmt, self.view(), e);
                        }
                        return Err(e);
                    },
                };
                let ghost mid = self.view();
                let r = if c.is_truthy() {
                    self.execute(then_branch)
                } else {
                    match else_branch {
                        Some(e) => self.execute(e),
                        None => Ok(Flow::Normal),
                    }
                };
                proof {
                    lemma_exec_after(m0, *stmt, mid, c, self.view(), r);
                }
                r
            },
            Stmt::While { condition, body } => {
                proof {
                    assert forall|m1: Machine, r: Result<Flow>| #[trigger]
                        loops(self.view(), **condition, **body, m1, r) implies loops(
                        m0,
                        **condition,
                        **body,
                        m1,
                        r,
                    ) by {}
                }
                loop
                    invariant
                        self.follows(old(self)),
                        *stmt == (Stmt::While { condition: *condition, body: *body }),
                        m0 == old(self).view(),
                        forall|m1: Machine, r: Result<Flow>|
                            #[trigger] loops(self.view(), **condition, **body, m1, r) ==> loops(
                                m0,
                                **condition,
                                **body,
                                m1,
                                r,
                            ),
                    decreases self.steps,
                {
                    let ghost cur = self.view();
                    if self.steps == 0 {
                        let e = budget_error(expr_line(condition));
                        proof {
                            lemma_loop_exhausted(cur, **condition, **body, Err(e));
                            lemma_exec_plain(m0, *stmt, m0, self.view(), Err(e));
                        }
                        return Err(e);
                    }
                    self.steps = self.steps - 1;
                    assert(self.view() == Machine { budget: (cur.budget - 1) as nat, ..cur });
                    let c = match self.evaluate(condition) {
                        Ok(c) => c,
                        Err(e) => {
                            proof {
                                lemma_loop_round(cur, **condition, **body, cur, Err(e), self.view(), Err(e));
                                lemma_exec_plain(m0, *stmt, m0, self.view(), Err(e));
                            }
                            return Err(e);
                        },
                    };
                    let ghost mid = self.view();
                    if !c.is_truthy() {
                        proof {
                            lemma_loop_round(cur, **condition, **body, mid, Ok(c), mid, Ok(Flow::Normal));
                            lemma_exec_plain(m0, *stmt, m0, mid, Ok(Flow::Normal));
                        }
                        return Ok(Flow::Normal);
                    }
                    match self.execute(body) {
                        Ok(Flow::Normal) => {
                            proof {
                                lemma_loop_again(cur, **condition, **body, mid, c, self.view());
                            }
                        },
                        Ok(Flow::Return(v)) => {
                            proof {
                                lemma_loop_round(cur, **condition, **body, mid, Ok(c), self.view(), Ok(Flow::Return(v)));
                                lemma_exec_plain(m0, *stmt, m0, self.view(), Ok(Flow::Return(v)));
                            }
                            return Ok(Flow::Return(v));
                        },
                        Err(e) => {
                            proof {
                                lemma_loop_round(cur, **condition, **body, mid, Ok(c), self.view(), Err(e));
                                lemma_exec_plain(m0, *stmt, m0, self.view(), Err(e));
                            }
                            return Err(e);
                        },
                    }
                }
            },
            Stmt::Block { stmts } => {
                let scope = self.env.push_scope(self.current);
                let ghost pushed = self.view();
                assert(Machine { scope: scope as int, ..pushed } == entered(m0));
                let r = self.execute_block(stmts, scope);
                proof {
                    let mk = choose|mk: Machine|
                        #[trigger] resumed(mk) && runs(
                            Machine { scope: scope as int, ..pushed },
                            stmts@,
                            mk,
                            r,
                        ) && self.view() == left_to(mk, pushed.scope);
                    lemma_exec_plain(m0, *stmt, mk, self.view(), r);
                }
                r
            },
        }
    }
}

impl Default for Interpreter {
    fn default() -> (r: Interpreter)
        ensures
            r.wf(),
            r.scope() == 0,
            r.printed().len() == 0,
    {
        Interpreter::new()
    }
}

} // verus!
