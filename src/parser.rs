//! The recursive-descent parser: a token sequence to a list of statements.
//! Precedence, lowest first: assignment, `or`, `and`, equality, comparison,
//! term, factor, unary, call, primary.
use crate::error::{Error, Result};
use crate::expr::Expr;
use crate::stmt::{FunctionDeclaration, Stmt};
use crate::token::{Token, TokenKind, TokenType};
use std::rc::Rc;
use vstd::prelude::*;

verus! {

/// `w` is a `while` over `condition` whose body runs `body`, then `increment`.
pub open spec fn is_loop(w: Stmt, condition: Expr, increment: Option<Expr>, body: Stmt) -> bool {
    &&& w matches Stmt::While { condition: c, body: b }
    &&& *c == condition
    &&& match increment {
        Some(inc) => {
            &&& *b matches Stmt::Block { stmts }
            &&& stmts@.len() == 2
            &&& stmts@[0] == body
            &&& stmts@[1] == Stmt::Expression { expr: Box::new(inc) }
        },
        None => *b == body,
    }
}

/// What a `for` loop stands for: its initializer, then the loop. With an
/// initializer the whole is one block, so that the loop variable stays inside.
pub open spec fn is_for_loop(
    r: Stmt,
    initializer: Option<Stmt>,
    condition: Expr,
    increment: Option<Expr>,
    body: Stmt,
) -> bool {
    match initializer {
        Some(init) => {
            &&& r matches Stmt::Block { stmts }
            &&& stmts@.len() == 2
            &&& stmts@[0] == init
            &&& is_loop(stmts@[1], condition, increment, body)
        },
        None => is_loop(r, condition, increment, body),
    }
}

/// A marker naming the parts of a `for` loop and where its condition and
/// increment end.
pub open spec fn for_parts(
    init: Option<Stmt>,
    cond: Expr,
    inc: Option<Expr>,
    body: Stmt,
    c0: int,
    c1: int,
    d: int,
) -> bool {
    true
}

/// Builds the statement that a `for` loop stands for.
pub fn desugar_for(
    initializer: Option<Stmt>,
    condition: Expr,
    increment: Option<Expr>,
    body: Stmt,
) -> (r: Stmt)
    ensures
        is_for_loop(r, initializer, condition, increment, body),
{
    let looped_body = match increment {
        Some(inc) => {
            let mut stmts: Vec<Stmt> = Vec::new();
            stmts.push(body);
            stmts.push(Stmt::Expression { expr: Box::new(inc) });
            Stmt::Block { stmts }
        },
        None => body,
    };
    let looped = Stmt::While { condition: Box::new(condition), body: Box::new(looped_body) };
    match initializer {
        Some(init) => {
            let mut stmts: Vec<Stmt> = Vec::new();
            stmts.push(init);
            stmts.push(looped);
            Stmt::Block { stmts }
        },
        None => looped,
    }
}

/// The kind of token `i`.
pub open spec fn kind_at(tokens: Seq<Token>, i: int) -> TokenKind {
    tokens[i].token_type.spec_kind()
}

/// The kinds of `tokens[a..b]`.
pub open spec fn span_kinds(tokens: Seq<Token>, a: int, b: int) -> Seq<TokenKind> {
    tokens.subrange(a, b).map_values(|t: Token| t.token_type.spec_kind())
}

/// The token kinds that an expression was written with, in order: its tree
/// flattened back to source, with the parentheses and commas it implies.
pub open spec fn expr_kinds(e: Expr) -> Seq<TokenKind>
    decreases e,
{
    match e {
        Expr::Binary { left, operator, right } => expr_kinds(*left) + seq![
            operator.token_type.spec_kind(),
        ] + expr_kinds(*right),
        Expr::Unary { operator, right } => seq![operator.token_type.spec_kind()] + expr_kinds(
            *right,
        ),
        Expr::Call { callee, args, .. } => expr_kinds(*callee) + seq![TokenKind::LeftParen]
            + args_kinds(args@) + seq![TokenKind::RightParen],
        Expr::Grouping { expr } => seq![TokenKind::LeftParen] + expr_kinds(*expr) + seq![
            TokenKind::RightParen,
        ],
        Expr::Literal { value } => seq![value.token_type.spec_kind()],
        Expr::Variable { name } => seq![name.token_type.spec_kind()],
        Expr::Assignment { name, value } => seq![name.token_type.spec_kind(), TokenKind::Equal]
            + expr_kinds(*value),
        Expr::LogicOr { left, operator, right } => expr_kinds(*left) + seq![
            operator.token_type.spec_kind(),
        ] + expr_kinds(*right),
        Expr::LogicAnd { left, operator, right } => expr_kinds(*left) + seq![
            operator.token_type.spec_kind(),
        ] + expr_kinds(*right),
    }
}

/// Call arguments flattened, separated by commas.
pub open spec fn args_kinds(s: Seq<Expr>) -> Seq<TokenKind>
    decreases s,
{
    if s.len() == 0 {
        Seq::empty()
    } else if s.len() == 1 {
        expr_kinds(s[0])
    } else {
        args_kinds(s.subrange(0, s.len() - 1)) + seq![TokenKind::Comma] + expr_kinds(s[s.len() - 1])
    }
}

/// The precedence level of a binary operator; 0 for other kinds.
pub open spec fn operator_level(k: TokenKind) -> nat {
    match k {
        TokenKind::Or => 2,
        TokenKind::And => 3,
        TokenKind::EqualEqual | TokenKind::BangEqual => 4,
        TokenKind::Greater | TokenKind::GreaterEqual | TokenKind::Less | TokenKind::LessEqual => 5,
        TokenKind::Minus | TokenKind::Plus => 6,
        TokenKind::Slash | TokenKind::Star => 7,
        _ => 0,
    }
}

/// How tightly an expression binds, from assignment (1) to primary (10).
pub open spec fn level(e: Expr) -> nat {
    match e {
        Expr::Assignment { .. } => 1,
        Expr::LogicOr { .. } => 2,
        Expr::LogicAnd { .. } => 3,
        Expr::Binary { operator, .. } => operator_level(operator.token_type.spec_kind()),
        Expr::Unary { .. } => 8,
        Expr::Call { .. } => 9,
        _ => 10,
    }
}

/// The tree respects the precedence ladder: binary operators nest left to right,
/// each operand binds at least as tightly as its operator (the right one more
/// tightly), and every leaf and operator token is of a kind its node allows.
pub open spec fn well_nested(e: Expr) -> bool
    decreases e,
{
    match e {
        Expr::Binary { left, operator, right } => {
            let l = operator_level(operator.token_type.spec_kind());
            &&& 4 <= l
            &&& level(*left) >= l
            &&& level(*right) > l
            &&& well_nested(*left)
            &&& well_nested(*right)
        },
        Expr::LogicOr { left, operator, right } => {
            &&& operator.token_type.spec_kind() == TokenKind::Or
            &&& level(*left) >= 2
            &&& level(*right) > 2
            &&& well_nested(*left)
            &&& well_nested(*right)
        },
        Expr::LogicAnd { left, operator, right } => {
            &&& operator.token_type.spec_kind() == TokenKind::And
            &&& level(*left) >= 3
            &&& level(*right) > 3
            &&& well_nested(*left)
            &&& well_nested(*right)
        },
        Expr::Unary { operator, right } => {
            &&& (operator.token_type.spec_kind() == TokenKind::Bang
                || operator.token_type.spec_kind() == TokenKind::Minus)
            &&& level(*right) >= 8
            &&& well_nested(*right)
        },
        Expr::Call { callee, paren, args } => {
            &&& paren.token_type.spec_kind() == TokenKind::RightParen
            &&& level(*callee) >= 9
            &&& well_nested(*callee)
            &&& forall|i: int| 0 <= i < args@.len() ==> well_nested(#[trigger] args@[i])
        },
        Expr::Grouping { expr } => well_nested(*expr),
        Expr::Literal { value } => is_literal_kind(value.token_type.spec_kind()),
        Expr::Variable { name } => name.token_type.spec_kind() == TokenKind::Identifier,
        Expr::Assignment { name, value } => {
            &&& name.token_type.spec_kind() == TokenKind::Identifier
            &&& well_nested(*value)
        },
    }
}

pub open spec fn is_literal_kind(k: TokenKind) -> bool {
    k == TokenKind::True || k == TokenKind::False || k == TokenKind::Nil || k == TokenKind::Number
        || k == TokenKind::String
}

/// Where argument `i` of a call starts, the call's `(` being at `open`.
pub open spec fn arg_start(open: int, args: Seq<Expr>, i: int) -> int {
    if i == 0 {
        open + 1
    } else {
        open + 1 + args_kinds(args.subrange(0, i)).len() + 1
    }
}

/// Every token that `e` holds is the token at its place in `tokens`, `e`
/// being written from position `a` on.
pub open spec fn holds_tokens(tokens: Seq<Token>, a: int, e: Expr) -> bool
    decreases e,
{
    match e {
        Expr::Binary { left, operator, right } => {
            let m = a + expr_kinds(*left).len();
            &&& holds_tokens(tokens, a, *left)
            &&& tokens[m] == operator
            &&& holds_tokens(tokens, m + 1, *right)
        },
        Expr::LogicOr { left, operator, right } => {
            let m = a + expr_kinds(*left).len();
            &&& holds_tokens(tokens, a, *left)
            &&& tokens[m] == operator
            &&& holds_tokens(tokens, m + 1, *right)
        },
        Expr::LogicAnd { left, operator, right } => {
            let m = a + expr_kinds(*left).len();
            &&& holds_tokens(tokens, a, *left)
            &&& tokens[m] == operator
            &&& holds_tokens(tokens, m + 1, *right)
        },
        Expr::Unary { operator, right } => tokens[a] == operator && holds_tokens(tokens, a + 1, *right),
        Expr::Call { callee, paren, args } => {
            let open = a + expr_kinds(*callee).len();
            &&& holds_tokens(tokens, a, *callee)
            &&& tokens[open + 1 + args_kinds(args@).len()] == paren
            &&& forall|i: int|
                0 <= i < args@.len() ==> holds_tokens(tokens, arg_start(open, args@, i), #[trigger] args@[i])
        },
        Expr::Grouping { expr } => holds_tokens(tokens, a + 1, *expr),
        Expr::Literal { value } => tokens[a] == value,
        Expr::Variable { name } => tokens[a] == name,
        Expr::Assignment { name, value } => tokens[a] == name && holds_tokens(tokens, a + 2, *value),
    }
}

/// Every expression is written with at least one token; with exactly one, it
/// is a literal or a variable.
pub proof fn lemma_expr_kinds_len(e: Expr)
    ensures
        expr_kinds(e).len() >= 1,
        expr_kinds(e).len() == 1 ==> (e is Literal || e is Variable),
    decreases e,
{
    match e {
        Expr::Binary { left, operator, right } => {
            lemma_expr_kinds_len(*left);
            assert(expr_kinds(e).len() == expr_kinds(*left).len() + 1 + expr_kinds(*right).len());
            assert(expr_kinds(e).len() >= 2);
        },
        Expr::LogicOr { left, operator, right } => {
            lemma_expr_kinds_len(*left);
            assert(expr_kinds(e).len() == expr_kinds(*left).len() + 1 + expr_kinds(*right).len());
            assert(expr_kinds(e).len() >= 2);
        },
        Expr::LogicAnd { left, operator, right } => {
            lemma_expr_kinds_len(*left);
            assert(expr_kinds(e).len() == expr_kinds(*left).len() + 1 + expr_kinds(*right).len());
            assert(expr_kinds(e).len() >= 2);
        },
        Expr::Call { callee, .. } => lemma_expr_kinds_len(*callee),
        Expr::Unary { right, .. } => lemma_expr_kinds_len(*right),
        _ => {},
    }
}

/// An expression parsed at precedence `min` from `tokens[a..b]`.
pub open spec fn parsed_expr(tokens: Seq<Token>, a: int, b: int, e: Expr, min: nat) -> bool {
    &&& span_kinds(tokens, a, b) == expr_kinds(e)
    &&& holds_tokens(tokens, a, e)
    &&& well_nested(e)
    &&& level(e) >= min
}

proof fn lemma_span_split(tokens: Seq<Token>, a: int, b: int, c: int)
    requires
        0 <= a <= b <= c <= tokens.len(),
    ensures
        span_kinds(tokens, a, c) == span_kinds(tokens, a, b) + span_kinds(tokens, b, c),
{
    assert(span_kinds(tokens, a, c) =~= span_kinds(tokens, a, b) + span_kinds(tokens, b, c));
}

proof fn lemma_span_one(tokens: Seq<Token>, a: int)
    requires
        0 <= a < tokens.len(),
    ensures
        span_kinds(tokens, a, a + 1) == seq![tokens[a].token_type.spec_kind()],
{
    assert(span_kinds(tokens, a, a + 1) =~= seq![tokens[a].token_type.spec_kind()]);
}

/// The kind of statement that a first token starts.
pub open spec fn statement_shape(first: TokenKind, st: Stmt) -> bool {
    match first {
        TokenKind::Var => st is VariableDeclaration,
        TokenKind::For => st is Block || st is While,
        TokenKind::If => st is If,
        TokenKind::While => st is While,
        TokenKind::Print => st is Print,
        TokenKind::LeftBrace => st is Block,
        TokenKind::Fun => st is FunctionDeclaration,
        TokenKind::Return => st is Return,
        _ => st is Expression,
    }
}

/// The rules of the expression grammar: assignment, a binary precedence level
/// (2 for `or` up to 7 for `*` and `/`) and the run of operators after its first
/// operand, unary, call and the argument lists after a callee, arguments,
/// and primary.
pub enum Rule {
    Assign,
    Level(nat),
    LevelTail(nat),
    Unary,
    Call,
    CallTail,
    Args,
    Primary,
}

pub open spec fn rule_rank(r: Rule) -> nat {
    match r {
        Rule::Args => 12,
        Rule::Assign => 11,
        Rule::Level(l) => if 2 <= l <= 7 {
            (12 - l) as nat
        } else {
            0
        },
        Rule::Unary => 4,
        Rule::Call => 3,
        Rule::Primary => 2,
        Rule::LevelTail(_) => 1,
        Rule::CallTail => 1,
    }
}

/// The rule for the operands of level `l`.
pub open spec fn next_level(l: nat) -> Rule {
    if l < 7 {
        Rule::Level(l + 1)
    } else {
        Rule::Unary
    }
}

/// Where an expression read by rule `r` from position `p` of `t` ends, reading as
/// far as the rule allows; `None` where the tokens there do not fit the rule.
pub open spec fn expr_end(t: Seq<Token>, p: int, r: Rule) -> Option<int>
    decreases t.len() - p, rule_rank(r),
{
    if !(0 <= p < t.len()) {
        None
    } else {
        match r {
            Rule::Assign => match expr_end(t, p, Rule::Level(2)) {
                Some(q) => if !(p < q) {
                    None
                } else if q < t.len() && kind_at(t, q) == TokenKind::Equal {
                    if q == p + 1 && kind_at(t, p) == TokenKind::Identifier {
                        expr_end(t, q + 1, Rule::Assign)
                    } else {
                        None
                    }
                } else {
                    Some(q)
                },
                None => None,
            },
            Rule::Level(l) => if 2 <= l <= 7 {
                match expr_end(t, p, next_level(l)) {
                    Some(q) => if p < q < t.len() {
                        expr_end(t, q, Rule::LevelTail(l))
                    } else {
                        None
                    },
                    None => None,
                }
            } else {
                None
            },
            Rule::LevelTail(l) => if 2 <= l <= 7 && operator_level(kind_at(t, p)) == l {
                match expr_end(t, p + 1, next_level(l)) {
                    Some(q) => if p + 1 < q < t.len() {
                        expr_end(t, q, Rule::LevelTail(l))
                    } else {
                        None
                    },
                    None => None,
                }
            } else {
                Some(p)
            },
            Rule::Unary => if kind_at(t, p) == TokenKind::Bang || kind_at(t, p) == TokenKind::Minus {
                expr_end(t, p + 1, Rule::Unary)
            } else {
                expr_end(t, p, Rule::Call)
            },
            Rule::Call => match expr_end(t, p, Rule::Primary) {
                Some(q) => if p < q < t.len() {
                    expr_end(t, q, Rule::CallTail)
                } else {
                    None
                },
                None => None,
            },
            Rule::CallTail => if kind_at(t, p) == TokenKind::LeftParen {
                if p + 1 < t.len() && kind_at(t, p + 1) == TokenKind::RightParen {
                    expr_end(t, p + 2, Rule::CallTail)
                } else {
                    match expr_end(t, p + 1, Rule::Args) {
                        Some(q) => if p + 1 < q && q < t.len() && kind_at(t, q) == TokenKind::RightParen {
                            expr_end(t, q + 1, Rule::CallTail)
                        } else {
                            None
                        },
                        None => None,
                    }
                }
            } else {
                Some(p)
            },
            Rule::Args => match expr_end(t, p, Rule::Assign) {
                Some(q) => if !(p < q) {
                    None
                } else if q < t.len() && kind_at(t, q) == TokenKind::Comma {
                    expr_end(t, q + 1, Rule::Args)
                } else {
                    Some(q)
                },
                None => None,
            },
            Rule::Primary => if is_literal_kind(kind_at(t, p)) || kind_at(t, p) == TokenKind::Identifier {
                Some(p + 1)
            } else if kind_at(t, p) == TokenKind::LeftParen {
                match expr_end(t, p + 1, Rule::Assign) {
                    Some(q) => if p + 1 < q && q < t.len() && kind_at(t, q) == TokenKind::RightParen {
                        Some(q + 1)
                    } else {
                        None
                    },
                    None => None,
                }
            } else {
                None
            },
        }
    }
}

/// Whether a statement starting with `k` is a simple one: `print`, `var`,
/// `return`, or an expression statement.
pub open spec fn is_simple_start(k: TokenKind) -> bool {
    k != TokenKind::For && k != TokenKind::If && k != TokenKind::While && k != TokenKind::LeftBrace
        && k != TokenKind::Fun
}

/// Where an expression from `p` followed by `;` ends, past the `;`.
pub open spec fn expr_then_semicolon(t: Seq<Token>, p: int) -> Option<int> {
    match expr_end(t, p, Rule::Assign) {
        Some(b) => if b < t.len() && kind_at(t, b) == TokenKind::Semicolon {
            Some(b + 1)
        } else {
            None
        },
        None => None,
    }
}

/// Where the simple statement starting at `p` ends; `None` where it is malformed.
pub open spec fn simple_end(t: Seq<Token>, p: int) -> Option<int> {
    let k = kind_at(t, p);
    if k == TokenKind::Print {
        expr_then_semicolon(t, p + 1)
    } else if k == TokenKind::Var {
        if p + 2 < t.len() && kind_at(t, p + 1) == TokenKind::Identifier {
            if kind_at(t, p + 2) == TokenKind::Semicolon {
                Some(p + 3)
            } else if kind_at(t, p + 2) == TokenKind::Equal {
                expr_then_semicolon(t, p + 3)
            } else {
                None
            }
        } else {
            None
        }
    } else if k == TokenKind::Return {
        if p + 1 < t.len() && kind_at(t, p + 1) == TokenKind::Semicolon {
            Some(p + 2)
        } else {
            expr_then_semicolon(t, p + 1)
        }
    } else {
        expr_then_semicolon(t, p)
    }
}

/// The simple statement written from `p` to `b` is `st`.
pub open spec fn simple_parsed(t: Seq<Token>, p: int, b: int, st: Stmt) -> bool {
    let k = kind_at(t, p);
    if k == TokenKind::Print {
        st matches Stmt::Print { expr } && parsed_expr(t, p + 1, b - 1, *expr, 1)
    } else if k == TokenKind::Var {
        st matches Stmt::VariableDeclaration { name, initializer } && name == t[p + 1] && match initializer {
            None => b == p + 3,
            Some(e) => parsed_expr(t, p + 3, b - 1, *e, 1),
        }
    } else if k == TokenKind::Return {
        st matches Stmt::Return { keyword, value } && keyword == t[p] && match value {
            None => b == p + 2,
            Some(e) => parsed_expr(t, p + 1, b - 1, *e, 1),
        }
    } else {
        st matches Stmt::Expression { expr } && parsed_expr(t, p, b - 1, *expr, 1)
    }
}

/// Where a `for` initializer starting at `p` ends, past its `;`.
pub open spec fn for_init_end(t: Seq<Token>, p: int) -> Option<int> {
    if kind_at(t, p) == TokenKind::Semicolon {
        Some(p + 1)
    } else if kind_at(t, p) == TokenKind::Var {
        simple_end(t, p)
    } else {
        expr_then_semicolon(t, p)
    }
}

/// Where the `;` after a `for` condition starting at `p` stands.
pub open spec fn for_cond_end(t: Seq<Token>, p: int) -> Option<int> {
    if kind_at(t, p) == TokenKind::Semicolon {
        Some(p)
    } else {
        match expr_end(t, p, Rule::Assign) {
            Some(q) => if q < t.len() && kind_at(t, q) == TokenKind::Semicolon {
                Some(q)
            } else {
                None
            },
            None => None,
        }
    }
}

/// Where the `)` after a `for` increment starting at `p` stands.
pub open spec fn for_inc_end(t: Seq<Token>, p: int) -> Option<int> {
    if kind_at(t, p) == TokenKind::RightParen {
        Some(p)
    } else {
        match expr_end(t, p, Rule::Assign) {
            Some(q) => if q < t.len() && kind_at(t, q) == TokenKind::RightParen {
                Some(q)
            } else {
                None
            },
            None => None,
        }
    }
}

/// Where the body of a `for` loop starting at `p` starts: past a well-formed
/// header `for ( initializer ; condition ; increment )`.
pub open spec fn for_header_end(t: Seq<Token>, p: int) -> Option<int> {
    if kind_at(t, p) == TokenKind::For && p + 2 < t.len() && kind_at(t, p + 1) == TokenKind::LeftParen {
        match for_init_end(t, p + 2) {
            Some(c0) => if c0 < t.len() {
                match for_cond_end(t, c0) {
                    Some(c1) => if c1 + 1 < t.len() {
                        match for_inc_end(t, c1 + 1) {
                            Some(d) => if d + 1 < t.len() {
                                Some(d + 1)
                            } else {
                                None
                            },
                            None => None,
                        }
                    } else {
                        None
                    },
                    None => None,
                }
            } else {
                None
            },
            None => None,
        }
    } else {
        None
    }
}

/// The rules of the statement grammar: a declaration, a statement, the
/// declarations inside a block, a parameter list, and a whole program.
pub enum StmtRule {
    Decl,
    Stmt,
    Items,
    Params,
    Program,
}

pub open spec fn stmt_rank(r: StmtRule) -> nat {
    match r {
        StmtRule::Program => 4,
        StmtRule::Items => 4,
        StmtRule::Decl => 3,
        StmtRule::Stmt => 2,
        StmtRule::Params => 1,
    }
}

/// Where the tokens from `p` on, read by statement rule `r`, end; `None` where
/// they are malformed.
pub open spec fn stmt_end(t: Seq<Token>, p: int, r: StmtRule) -> Option<int>
    decreases t.len() - p, stmt_rank(r),
{
    if !(0 <= p < t.len()) {
        None
    } else {
        let k = kind_at(t, p);
        match r {
            StmtRule::Program => if k == TokenKind::Eof {
                Some(p)
            } else {
                match stmt_end(t, p, StmtRule::Decl) {
                    Some(q) => if p < q < t.len() {
                        stmt_end(t, q, StmtRule::Program)
                    } else {
                        None
                    },
                    None => None,
                }
            },
            StmtRule::Items => if k == TokenKind::RightBrace || k == TokenKind::Eof {
                Some(p)
            } else {
                match stmt_end(t, p, StmtRule::Decl) {
                    Some(q) => if p < q < t.len() {
                        stmt_end(t, q, StmtRule::Items)
                    } else {
                        None
                    },
                    None => None,
                }
            },
            StmtRule::Decl => if k == TokenKind::Var {
                simple_end(t, p)
            } else {
                stmt_end(t, p, StmtRule::Stmt)
            },
            StmtRule::Params => if k == TokenKind::Identifier {
                if p + 2 < t.len() && kind_at(t, p + 1) == TokenKind::Comma {
                    stmt_end(t, p + 2, StmtRule::Params)
                } else {
                    Some(p + 1)
                }
            } else {
                None
            },
            StmtRule::Stmt => if k == TokenKind::For {
                match for_header_end(t, p) {
                    Some(b) => if p < b < t.len() {
                        stmt_end(t, b, StmtRule::Stmt)
                    } else {
                        None
                    },
                    None => None,
                }
            } else if k == TokenKind::If || k == TokenKind::While {
                if p + 2 < t.len() && kind_at(t, p + 1) == TokenKind::LeftParen {
                    match expr_end(t, p + 2, Rule::Assign) {
                        Some(c) => if p + 2 < c && c + 1 < t.len() && kind_at(t, c) == TokenKind::RightParen {
                            match stmt_end(t, c + 1, StmtRule::Stmt) {
                                Some(e1) => if k == TokenKind::If && c + 1 < e1 < t.len() && kind_at(t, e1)
                                    == TokenKind::Else && e1 + 1 < t.len() {
                                    stmt_end(t, e1 + 1, StmtRule::Stmt)
                                } else {
                                    Some(e1)
                                },
                                None => None,
                            }
                        } else {
                            None
                        },
                        None => None,
                    }
                } else {
                    None
                }
            } else if k == TokenKind::LeftBrace {
                if p + 1 < t.len() {
                    match stmt_end(t, p + 1, StmtRule::Items) {
                        Some(q) => if q < t.len() && kind_at(t, q) == TokenKind::RightBrace {
                            Some(q + 1)
                        } else {
                            None
                        },
                        None => None,
                    }
                } else {
                    None
                }
            } else if k == TokenKind::Fun {
                if p + 3 < t.len() && kind_at(t, p + 1) == TokenKind::Identifier && kind_at(t, p + 2)
                    == TokenKind::LeftParen {
                    let q = if kind_at(t, p + 3) == TokenKind::RightParen {
                        Some(p + 3)
                    } else {
                        match stmt_end(t, p + 3, StmtRule::Params) {
                            Some(q) => if q < t.len() && kind_at(t, q) == TokenKind::RightParen {
                                Some(q)
                            } else {
                                None
                            },
                            None => None,
                        }
                    };
                    match q {
                        Some(q) => if p + 3 <= q && q + 1 < t.len() && kind_at(t, q + 1) == TokenKind::LeftBrace
                            && q + 2 < t.len() {
                            match stmt_end(t, q + 2, StmtRule::Items) {
                                Some(e) => if e < t.len() && kind_at(t, e) == TokenKind::RightBrace {
                                    Some(e + 1)
                                } else {
                                    None
                                },
                                None => None,
                            }
                        } else {
                            None
                        },
                        None => None,
                    }
                } else {
                    None
                }
            } else if k == TokenKind::Print || k == TokenKind::Return {
                simple_end(t, p)
            } else {
                expr_then_semicolon(t, p)
            },
        }
    }
}

/// Statement rule `r` reads the tokens from here up to where `after` stands;
/// where the tokens do not fit it, the parse fails.
pub open spec fn sreads(before: &Parser, after: &Parser, r: StmtRule, ok: bool) -> bool {
    &&& ok == (stmt_end(before.spec_tokens(), before.position(), r) is Some)
    &&& ok ==> stmt_end(before.spec_tokens(), before.position(), r) == Some(after.position())
}

/// A marker naming the positions inside an `if` or `while` statement: where
/// its condition ends and where its first branch ends.
pub open spec fn branch_parts(c: int, e1: int) -> bool {
    true
}

/// A marker naming where a function's parameter list closes and where the
/// statements of its body start.
pub open spec fn function_parts(q: int, starts: Seq<int>) -> bool {
    true
}

/// The statement written from `p` to `b` is `st`: its parts are the trees that
/// their own spans spell, down to every expression.
pub open spec fn stmt_parsed(t: Seq<Token>, p: int, b: int, st: Stmt) -> bool
    decreases b - p,
{
    if !(0 <= p < b) {
        false
    } else {
        let k = kind_at(t, p);
        if k == TokenKind::For {
            exists|
                init: Option<Stmt>,
                cond: Expr,
                inc: Option<Expr>,
                body: Stmt,
                c0: int,
                c1: int,
                d: int,
            |
                #[trigger] for_parts(init, cond, inc, body, c0, c1, d) && p < d + 1 < b && for_init_end(
                    t,
                    p + 2,
                ) == Some(c0) && for_cond_end(t, c0) == Some(c1) && for_inc_end(t, c1 + 1) == Some(d)
                    && is_for_loop(st, init, cond, inc, body) && (init is None <==> kind_at(t, p + 2)
                    == TokenKind::Semicolon) && (init matches Some(i) ==> if kind_at(t, p + 2)
                    == TokenKind::Var {
                    simple_parsed(t, p + 2, c0, i)
                } else {
                    i matches Stmt::Expression { expr } && parsed_expr(t, p + 2, c0 - 1, *expr, 1)
                }) && (if c0 == c1 {
                    cond matches Expr::Literal { value } && value.token_type is True
                } else {
                    parsed_expr(t, c0, c1, cond, 1)
                }) && (inc is None <==> kind_at(t, c1 + 1) == TokenKind::RightParen) && (inc matches Some(
                    e,
                ) ==> parsed_expr(t, c1 + 1, d, e, 1)) && stmt_parsed(t, d + 1, b, body)
        } else if k == TokenKind::If {
            st matches Stmt::If { condition, then_branch, else_branch } && exists|c: int, e1: int|
                #[trigger] branch_parts(c, e1) && p + 2 <= c && c + 1 < e1 <= b && parsed_expr(
                    t,
                    p + 2,
                    c,
                    *condition,
                    1,
                ) && kind_at(t, c) == TokenKind::RightParen && stmt_parsed(t, c + 1, e1, *then_branch)
                    && match else_branch {
                    None => e1 == b,
                    Some(e) => e1 + 1 < b && kind_at(t, e1) == TokenKind::Else && stmt_parsed(
                        t,
                        e1 + 1,
                        b,
                        *e,
                    ),
                }
        } else if k == TokenKind::While {
            st matches Stmt::While { condition, body } && exists|c: int|
                #[trigger] branch_parts(c, c) && p + 2 <= c && c + 1 < b && parsed_expr(
                    t,
                    p + 2,
                    c,
                    *condition,
                    1,
                ) && kind_at(t, c) == TokenKind::RightParen && stmt_parsed(t, c + 1, b, *body)
        } else if k == TokenKind::LeftBrace {
            st matches Stmt::Block { stmts } && kind_at(t, b - 1) == TokenKind::RightBrace && exists|
                starts: Seq<int>,
            |
                #[trigger] statement_starts(starts) && starts.len() == stmts@.len() + 1 && starts[0] == p
                    + 1 && starts[stmts@.len() as int] == b - 1 && forall|i: int|
                    0 <= i < stmts@.len() ==> p < #[trigger] starts[i] < starts[i + 1] < b
                        && stmt_parsed(t, starts[i], starts[i + 1], stmts@[i])
        } else if k == TokenKind::Fun {
            st matches Stmt::FunctionDeclaration(d) && d.name == t[p + 1] && (forall|i: int|
                0 <= i < d.params@.len() ==> #[trigger] d.params@[i] == t[p + 3 + 2 * i]) && exists|
                q: int,
                starts: Seq<int>,
            |
                #[trigger] function_parts(q, starts) && p + 3 <= q && q + 2 < b && kind_at(t, q)
                    == TokenKind::RightParen && kind_at(t, q + 1) == TokenKind::LeftBrace && kind_at(
                    t,
                    b - 1,
                ) == TokenKind::RightBrace && starts.len() == d.body@.len() + 1 && starts[0] == q + 2
                    && starts[d.body@.len() as int] == b - 1 && forall|i: int|
                    0 <= i < d.body@.len() ==> p < #[trigger] starts[i] < starts[i + 1] < b
                        && stmt_parsed(t, starts[i], starts[i + 1], d.body@[i])
        } else {
            simple_parsed(t, p, b, st)
        }
    }
}

/// The tokens from `p` on are simple statements, one after another, up to `Eof`.
pub open spec fn simple_program(t: Seq<Token>, p: int) -> bool
    decreases t.len() - p,
{
    if !(0 <= p < t.len()) {
        false
    } else if kind_at(t, p) == TokenKind::Eof {
        true
    } else if is_simple_start(kind_at(t, p)) {
        match simple_end(t, p) {
            Some(q) => p < q && simple_program(t, q),
            None => false,
        }
    } else {
        false
    }
}

/// Statement `i` of `stmts`, written from `starts[i]` to `starts[i + 1]`, is
/// exactly what its tokens spell where it is a simple statement.
pub open spec fn simple_at(t: Seq<Token>, starts: Seq<int>, stmts: Seq<Stmt>, i: int) -> bool {
    is_simple_start(kind_at(t, starts[i])) ==> simple_end(t, starts[i]) == Some(starts[i + 1])
        && simple_parsed(t, starts[i], starts[i + 1], stmts[i])
}

/// Statement `i` of `stmts` is the tree that its span, from `starts[i]` to
/// `starts[i + 1]`, spells.
pub open spec fn stmt_at(t: Seq<Token>, starts: Seq<int>, stmts: Seq<Stmt>, i: int) -> bool {
    stmt_parsed(t, starts[i], starts[i + 1], stmts[i])
}

/// The simple statement rule reads from here up to where `after` stands, and
/// gives `st` exactly; where the tokens are malformed, the parse fails.
pub open spec fn reads_simple(before: &Parser, after: &Parser, r: Result<Stmt>) -> bool {
    let t = before.spec_tokens();
    let p = before.position();
    &&& (r is Ok) == (simple_end(t, p) is Some)
    &&& r is Ok ==> simple_end(t, p) == Some(after.position())
    &&& r matches Ok(st) ==> simple_parsed(t, p, after.position(), st)
}

/// The token kinds an expression can start with.
pub open spec fn starts_expression(k: TokenKind) -> bool {
    is_literal_kind(k) || k == TokenKind::Identifier || k == TokenKind::LeftParen || k == TokenKind::Bang
        || k == TokenKind::Minus
}

/// Rule `r` reads the tokens from here up to where `after` stands, and no
/// further; where it cannot, the parse fails.
pub open spec fn reads(before: &Parser, after: &Parser, r: Rule, ok: bool) -> bool {
    &&& ok == (expr_end(before.spec_tokens(), before.position(), r) is Some)
    &&& ok ==> expr_end(before.spec_tokens(), before.position(), r) == Some(after.position())
}

/// A marker naming where each parsed statement starts.
pub open spec fn statement_starts(starts: Seq<int>) -> bool {
    true
}

/// Consumes tokens front to back; stops at the first malformed construct.
pub struct Parser {
    tokens: Vec<Token>,
    current: usize,
}

impl Parser {
    pub closed spec fn wf(&self) -> bool {
        &&& self.tokens.len() > 0
        &&& self.tokens@.last().token_type.spec_kind() == TokenKind::Eof
        &&& self.current < self.tokens.len()
    }

    pub closed spec fn remaining(&self) -> int {
        self.tokens.len() - self.current
    }

    pub closed spec fn position(&self) -> int {
        self.current as int
    }

    pub closed spec fn spec_tokens(&self) -> Seq<Token> {
        self.tokens@
    }

    /// The token `offset` places from the current one.
    pub open spec fn token_here(&self, offset: int) -> Token {
        self.spec_tokens()[self.position() + offset]
    }

    /// The kind of the token `offset` places from the current one.
    pub open spec fn kind_here(&self, offset: int) -> TokenKind {
        kind_at(self.spec_tokens(), self.position() + offset)
    }

    /// The tokens from here up to where `after` stands hold expression `e`,
    /// parsed at precedence `min`.
    pub open spec fn parsed_up_to(&self, after: &Parser, e: Expr, min: nat) -> bool {
        parsed_expr(self.spec_tokens(), self.position(), after.position(), e, min)
    }

    /// A parser at the first of `tokens`, which end in `Eof`.
    pub fn new(tokens: Vec<Token>) -> (r: Parser)
        requires
            tokens.len() > 0,
            tokens@.last().token_type.spec_kind() == TokenKind::Eof,
        ensures
            r.wf(),
            r.position() == 0,
            r.spec_tokens() == tokens@,
    {
        Parser { tokens, current: 0 }
    }

    /// Parses declarations up to `Eof`; the first malformed one fails the whole.
    #[verifier::spinoff_prover]
    #[verifier::rlimit(100)]
    pub fn parse(&mut self) -> (r: Result<Vec<Stmt>>)
        requires
            old(self).wf(),
        ensures
            final(self).wf(),
            final(self).spec_tokens() == old(self).spec_tokens(),
            r is Ok ==> final(self).kind_here(0) == TokenKind::Eof,
            r matches Err(e) ==> e is ParseError,
            old(self).kind_here(0) == TokenKind::Eof ==> (r matches Ok(v) && v@.len() == 0),
            simple_program(old(self).spec_tokens(), old(self).position()) ==> r is Ok,
            (r is Ok) == (stmt_end(old(self).spec_tokens(), old(self).position(), StmtRule::Program)
                is Some),
            old(self).kind_here(0) != TokenKind::Eof && is_simple_start(old(self).kind_here(0))
                && simple_end(old(self).spec_tokens(), old(self).position()) is None ==> r is Err,
            r matches Ok(stmts) ==> exists|starts: Seq<int>|
                #[trigger] statement_starts(starts) && starts.len() == stmts@.len() + 1
                    && starts[0] == old(self).position() && starts[stmts@.len() as int]
                    == final(self).position() && (forall|i: int|
                    0 <= i < stmts@.len() ==> #[trigger] starts[i] < starts[i + 1]) && (forall|i: int|
                    0 <= i < stmts@.len() ==> statement_shape(
                        kind_at(old(self).spec_tokens(), starts[i]),
                        #[trigger] stmts@[i],
                    )) && (forall|i: int|
                    0 <= i < stmts@.len() ==> #[trigger] simple_at(
                        old(self).spec_tokens(),
                        starts,
                        stmts@,
                        i,
                    )) && (forall|i: int|
                    0 <= i < stmts@.len() ==> #[trigger] stmt_at(old(self).spec_tokens(), starts, stmts@, i)),
    {
        let mut statements: Vec<Stmt> = Vec::new();
        let ghost mut starts: Seq<int> = seq![self.current as int];
        while !self.at_end()
            invariant
                self.wf(),
                self.tokens@ == old(self).tokens@,
                self.current >= old(self).current,
                starts.len() == statements@.len() + 1,
                starts[0] == old(self).current,
                starts[statements@.len() as int] == self.current,
                statements@.len() == 0 ==> self.current == old(self).current,
                kind_at(old(self).tokens@, old(self).current as int) == TokenKind::Eof
                    ==> statements@.len() == 0,
                simple_program(old(self).tokens@, old(self).current as int) ==> simple_program(
                    old(self).tokens@,
                    self.current as int,
                ),
                stmt_end(old(self).tokens@, old(self).current as int, StmtRule::Program) == stmt_end(
                    old(self).tokens@,
                    self.current as int,
                    StmtRule::Program,
                ),
                forall|i: int| 0 <= i < statements@.len() ==> #[trigger] starts[i] < starts[i + 1],
                forall|i: int|
                    0 <= i < statements@.len() ==> statement_shape(
                        kind_at(old(self).tokens@, starts[i]),
                        #[trigger] statements@[i],
                    ),
                forall|i: int|
                    0 <= i < statements@.len() ==> #[trigger] simple_at(
                        old(self).tokens@,
                        starts,
                        statements@,
                        i,
                    ),
                forall|i: int|
                    0 <= i < statements@.len() ==> #[trigger] stmt_at(old(self).tokens@, starts, statements@, i),
            decreases self.remaining(),
        {
            let ghost at = self.current as int;
            let ghost before = statements@;
            let ghost old_starts = starts;
            let stmt = self.parse_declaration_statement()?;
            let ghost gs = stmt;
            statements.push(stmt);
            proof {
                starts = starts.push(self.current as int);
                assert(statements@[before.len() as int] == gs);
                assert forall|i: int| 0 <= i < statements@.len() implies #[trigger] starts[i] < starts[i + 1] by {
                    if i < before.len() {
                        assert(starts[i] == old_starts[i]);
                        assert(starts[i + 1] == old_starts[i + 1]);
                    }
                }
                assert forall|i: int|
                    0 <= i < statements@.len() implies statement_shape(
                        kind_at(old(self).tokens@, starts[i]),
                        #[trigger] statements@[i],
                    ) by {
                    if i < before.len() {
                        assert(statements@[i] == before[i]);
                        assert(starts[i] == old_starts[i]);
                    }
                }
                assert forall|i: int| 0 <= i < statements@.len() implies #[trigger] simple_at(
                    old(self).tokens@,
                    starts,
                    statements@,
                    i,
                ) by {
                    if i < before.len() {
                        assert(statements@[i] == before[i]);
                        assert(starts[i] == old_starts[i]);
                        assert(starts[i + 1] == old_starts[i + 1]);
                        assert(simple_at(old(self).tokens@, old_starts, before, i));
                        assert(stmt_at(old(self).tokens@, old_starts, before, i));
                    } else {
                        assert(starts[i] == at);
                        assert(starts[i + 1] == self.current);
                        assert(statements@[i] == gs);
                    }
                }
                assert forall|i: int| 0 <= i < statements@.len() implies #[trigger] stmt_at(
                    old(self).tokens@,
                    starts,
                    statements@,
                    i,
                ) by {
                    if i < before.len() {
                        assert(statements@[i] == before[i]);
                        assert(starts[i] == old_starts[i]);
                        assert(starts[i + 1] == old_starts[i + 1]);
                        assert(stmt_at(old(self).tokens@, old_starts, before, i));
                    } else {
                        assert(starts[i] == at);
                        assert(starts[i + 1] == self.current);
                        assert(statements@[i] == gs);
                    }
                }
            }
        }
        if statements.len() > 0 {
            assert(statement_shape(kind_at(old(self).tokens@, starts[0]), statements@[0]));
            assert(simple_at(old(self).tokens@, starts, statements@, 0));
        }
        assert(statement_starts(starts));
        Ok(statements)
    }

    fn at_end(&self) -> (r: bool)
        requires
            self.wf(),
        ensures
            r == (kind_at(self.tokens@, self.current as int) == TokenKind::Eof),
            !r ==> self.current < self.tokens.len() - 1,
    {
        self.tokens[self.current].token_type.kind() == TokenKind::Eof
    }

    fn check(&self, k: TokenKind) -> (r: bool)
        requires
            self.wf(),
        ensures
            r == (kind_at(self.tokens@, self.current as int) == k),
    {
        self.tokens[self.current].token_type.kind() == k
    }

    /// The current token; moves past it unless it is `Eof`.
    fn advance(&mut self) -> (t: Token)
        requires
            old(self).wf(),
        ensures
            final(self).wf(),
            final(self).tokens == old(self).tokens,
            t == old(self).token_here(0),
            final(self).current == old(self).current + if t.token_type.spec_kind()
                == TokenKind::Eof {
                0int
            } else {
                1int
            },
    {
        let t = self.tokens[self.current].copy();
        if !self.at_end() {
            self.current = self.current + 1;
        }
        t
    }

    /// Moves past the current token where it is of kind `k`.
    fn match_kind(&mut self, k: TokenKind) -> (r: bool)
        requires
            old(self).wf(),
            k != TokenKind::Eof,
        ensures
            final(self).wf(),
            final(self).tokens == old(self).tokens,
            r == (old(self).kind_here(0) == k),
            final(self).current == old(self).current + if r {
                1int
            } else {
                0int
            },
    {
        if self.check(k) {
            self.advance();
            true
        } else {
            false
        }
    }

    /// The current token, which must be of kind `k`; else a parse error.
    fn consume(&mut self, k: TokenKind, msg: &str) -> (r: Result<Token>)
        requires
            old(self).wf(),
            k != TokenKind::Eof,
        ensures
            final(self).wf(),
            final(self).tokens == old(self).tokens,
            r is Ok <==> old(self).kind_here(0) == k,
            match r {
                Ok(t) => t.token_type.spec_kind() == k
                    && final(self).current == old(self).current + 1
                    && t == old(self).token_here(0),
                Err(e) => e is ParseError && final(self).current == old(self).current,
            },
    {
        if self.check(k) {
            Ok(self.advance())
        } else {
            Err(self.error(msg))
        }
    }

    /// A parse error at the current token's line.
    fn error(&self, msg: &str) -> (r: Error)
        requires
            self.wf(),
        ensures
            r matches Error::ParseError { line, msg: m }
                && line == self.tokens@[self.current as int].line
                && m@ == msg@,
    {
        Error::ParseError { line: self.tokens[self.current].line, msg: String::from_str(msg) }
    }

    fn parse_declaration_statement(&mut self) -> (r: Result<Stmt>)
        requires
            old(self).wf(),
        ensures
            final(self).wf(),
            final(self).tokens == old(self).tokens,
            final(self).current >= old(self).current,
            r is Ok ==> final(self).current > old(self).current,
            r matches Err(e) ==> e is ParseError,
            r matches Ok(st) ==> stmt_parsed(old(self).spec_tokens(), old(self).position(), final(self).position(), st),
            sreads(old(self), final(self), StmtRule::Decl, r is Ok),
            is_simple_start(old(self).kind_here(0)) ==> reads_simple(old(self), final(self), r),
            r matches Ok(st) ==> statement_shape(old(self).kind_here(0), st),
        decreases old(self).remaining(), 4int,
    {
        if self.check(TokenKind::Var) {
            self.parse_variable_declaration()
        } else {
            self.parse_statement()
        }
    }

    #[verifier::spinoff_prover]
    #[verifier::rlimit(100)]
    fn parse_statement(&mut self) -> (r: Result<Stmt>)
        requires
            old(self).wf(),
        ensures
            final(self).wf(),
            final(self).tokens == old(self).tokens,
            final(self).current >= old(self).current,
            r is Ok ==> final(self).current > old(self).current,
            r matches Err(e) ==> e is ParseError,
            r matches Ok(st) ==> stmt_parsed(old(self).spec_tokens(), old(self).position(), final(self).position(), st),
            sreads(old(self), final(self), StmtRule::Stmt, r is Ok),
            is_simple_start(old(self).kind_here(0)) && old(self).kind_here(0) != TokenKind::Var
                ==> reads_simple(old(self), final(self), r),
            r matches Ok(st) ==> old(self).kind_here(0) != TokenKind::Var ==> statement_shape(
                old(self).kind_here(0),
                st,
            ),
        decreases old(self).remaining(), 3int,
    {
        let k = self.tokens[self.current].token_type.kind();
        match k {
            TokenKind::For => self.parse_for_statement(),
            TokenKind::If => self.parse_if_statement(),
            TokenKind::While => self.parse_while_loop(),
            TokenKind::Print => self.parse_print_statement(),
            TokenKind::LeftBrace => self.parse_block(),
            TokenKind::Fun => self.parse_function_declaration(),
            TokenKind::Return => self.parse_return_statement(),
            _ => self.parse_expression_statement(),
        }
    }

    fn parse_block_items(&mut self) -> (r: Result<Vec<Stmt>>)
        requires
            old(self).wf(),
        ensures
            final(self).wf(),
            final(self).tokens == old(self).tokens,
            final(self).current >= old(self).current,
            r is Ok ==> final(self).current > old(self).current,
            r matches Err(e) ==> e is ParseError,
            r matches Ok(stmts) ==> exists|starts: Seq<int>|
                #[trigger] statement_starts(starts) && starts.len() == stmts@.len() + 1 && starts[0]
                    == old(self).position() + 1 && starts[stmts@.len() as int] == final(self).position() - 1 && forall|
                    i: int,
                |
                    0 <= i < stmts@.len() ==> old(self).position() < #[trigger] starts[i] < starts[i + 1]
                        < final(self).position() && stmt_parsed(old(self).spec_tokens(), starts[i], starts[i + 1], stmts@[i]),
            old(self).kind_here(0) == TokenKind::LeftBrace ==> sreads(old(self), final(self), StmtRule::Stmt, r is Ok),
            r is Ok ==> old(self).kind_here(0) == TokenKind::LeftBrace
                && final(self).kind_here(-1) == TokenKind::RightBrace,
        decreases old(self).remaining(), 1int,
    {
        self.consume(TokenKind::LeftBrace, "expect '{' before block")?;
        let mut stmts: Vec<Stmt> = Vec::new();
        let ghost mut starts: Seq<int> = seq![self.current as int];
        while !self.check(TokenKind::RightBrace) && !self.at_end()
            invariant
                self.wf(),
                self.tokens == old(self).tokens,
                self.current > old(self).current,
                stmt_end(self.tokens@, old(self).current + 1, StmtRule::Items) == stmt_end(
                    self.tokens@,
                    self.current as int,
                    StmtRule::Items,
                ),
                starts.len() == stmts@.len() + 1,
                starts[0] == old(self).current + 1,
                starts[stmts@.len() as int] == self.current,
                forall|i: int|
                    0 <= i < stmts@.len() ==> old(self).current < #[trigger] starts[i] < starts[i + 1]
                        <= self.current && stmt_parsed(self.tokens@, starts[i], starts[i + 1], stmts@[i]),
            decreases self.remaining(),
        {
            let ghost at = self.current as int;
            let ghost before = stmts@;
            let ghost old_starts = starts;
            let stmt = self.parse_declaration_statement()?;
            let ghost gs = stmt;
            stmts.push(stmt);
            proof {
                starts = starts.push(self.current as int);
                assert forall|i: int|
                    0 <= i < stmts@.len() implies old(self).current < #[trigger] starts[i] < starts[i
                        + 1] <= self.current && stmt_parsed(self.tokens@, starts[i], starts[i + 1], stmts@[i]) by {
                    if i < before.len() {
                        assert(stmts@[i] == before[i]);
                        assert(starts[i] == old_starts[i]);
                        assert(starts[i + 1] == old_starts[i + 1]);
                    } else {
                        assert(starts[i] == at);
                        assert(stmts@[i] == gs);
                    }
                }
            }
        }
        self.consume(TokenKind::RightBrace, "expect '}' after block")?;
        assert(statement_starts(starts));
        Ok(stmts)
    }

    fn parse_block(&mut self) -> (r: Result<Stmt>)
        requires
            old(self).wf(),
        ensures
            final(self).wf(),
            final(self).tokens == old(self).tokens,
            final(self).current >= old(self).current,
            r is Ok ==> final(self).current > old(self).current,
            r matches Err(e) ==> e is ParseError,
            r matches Ok(st) ==> stmt_parsed(old(self).spec_tokens(), old(self).position(), final(self).position(), st),
            old(self).kind_here(0) == TokenKind::LeftBrace ==> sreads(old(self), final(self), StmtRule::Stmt, r is Ok),
            r is Ok ==> old(self).kind_here(0) == TokenKind::LeftBrace
                && final(self).kind_here(-1) == TokenKind::RightBrace,
            r matches Ok(s) ==> s is Block,
        decreases old(self).remaining(), 2int,
    {
        let stmts = self.parse_block_items()?;
        Ok(Stmt::Block { stmts })
    }

    #[verifier::spinoff_prover]
    #[verifier::rlimit(100)]
    fn parse_for_statement(&mut self) -> (r: Result<Stmt>)
        requires
            old(self).wf(),
        ensures
            final(self).wf(),
            final(self).tokens == old(self).tokens,
            final(self).current >= old(self).current,
            r is Ok ==> final(self).current > old(self).current,
            r matches Err(e) ==> e is ParseError,
            r matches Ok(st) ==> stmt_parsed(old(self).spec_tokens(), old(self).position(), final(self).position(), st),
            old(self).kind_here(0) == TokenKind::For ==> sreads(old(self), final(self), StmtRule::Stmt, r is Ok),
            old(self).kind_here(0) != TokenKind::For ==> r is Err,
            old(self).kind_here(0) == TokenKind::For && old(self).kind_here(1) != TokenKind::LeftParen
                ==> r is Err,
            old(self).kind_here(0) == TokenKind::For && for_header_end(old(self).spec_tokens(), old(self).position()) is None ==> r is Err,
            for_header_end(old(self).spec_tokens(), old(self).position()) matches Some(b) && is_simple_start(kind_at(old(self).spec_tokens(), b)) && kind_at(
                old(self).spec_tokens(),
                b,
            ) != TokenKind::Var && simple_end(old(self).spec_tokens(), b) is Some ==> r is Ok,
            r matches Ok(st) ==> exists|
                init: Option<Stmt>,
                cond: Expr,
                inc: Option<Expr>,
                body: Stmt,
                c0: int,
                c1: int,
                d: int,
            |
                #[trigger] for_parts(init, cond, inc, body, c0, c1, d) && for_header_end(old(self).spec_tokens(), old(self).position())
                    == Some(d + 1) && for_init_end(old(self).spec_tokens(), old(self).position() + 2) == Some(c0) && for_cond_end(old(self).spec_tokens(), c0)
                    == Some(c1) && for_inc_end(old(self).spec_tokens(), c1 + 1) == Some(d) && is_for_loop(
                    st,
                    init,
                    cond,
                    inc,
                    body,
                ) && (init is None <==> kind_at(old(self).spec_tokens(), old(self).position() + 2) == TokenKind::Semicolon) && (init matches Some(
                    i,
                ) ==> if kind_at(old(self).spec_tokens(), old(self).position() + 2) == TokenKind::Var {
                    simple_parsed(old(self).spec_tokens(), old(self).position() + 2, c0, i)
                } else {
                    i matches Stmt::Expression { expr } && parsed_expr(old(self).spec_tokens(), old(self).position() + 2, c0 - 1, *expr, 1)
                }) && (if c0 == c1 {
                    cond matches Expr::Literal { value } && value.token_type is True
                } else {
                    parsed_expr(old(self).spec_tokens(), c0, c1, cond, 1)
                }) && (inc is None <==> kind_at(old(self).spec_tokens(), c1 + 1) == TokenKind::RightParen) && (inc matches Some(
                    e,
                ) ==> parsed_expr(old(self).spec_tokens(), c1 + 1, d, e, 1)) && (kind_at(old(self).spec_tokens(), d + 1) != TokenKind::Var
                    ==> statement_shape(kind_at(old(self).spec_tokens(), d + 1), body)) && (is_simple_start(kind_at(old(self).spec_tokens(), d + 1))
                    && kind_at(old(self).spec_tokens(), d + 1) != TokenKind::Var ==> simple_end(old(self).spec_tokens(), d + 1) == Some(
                    final(self).position(),
                ) && simple_parsed(old(self).spec_tokens(), d + 1, final(self).position(), body)),
        decreases old(self).remaining(), 2int,
    {
        self.consume(TokenKind::For, "expect 'for'")?;
        self.consume(TokenKind::LeftParen, "expect '(' after 'for'")?;
        let initializer = if self.match_kind(TokenKind::Semicolon) {
            None
        } else if self.check(TokenKind::Var) {
            Some(self.parse_variable_declaration()?)
        } else {
            Some(self.parse_expression_statement()?)
        };
        let ghost c0 = self.current as int;
        let condition = if self.check(TokenKind::Semicolon) {
            let line = self.tokens[self.current].line;
            Expr::Literal { value: Token::new(TokenType::True, String::from_str("true"), line) }
        } else {
            self.parse_expression()?
        };
        let ghost c1 = self.current as int;
        self.consume(TokenKind::Semicolon, "expect ';' after loop condition")?;
        let increment = if self.check(TokenKind::RightParen) {
            None
        } else {
            Some(self.parse_expression()?)
        };
        let ghost d = self.current as int;
        self.consume(TokenKind::RightParen, "expect ')' after for clauses")?;
        let body = self.parse_statement()?;
        let ghost (gi, gc, ginc, gb) = (initializer, condition, increment, body);
        let r = desugar_for(initializer, condition, increment, body);
        assert(for_parts(gi, gc, ginc, gb, c0, c1, d));
        Ok(r)
    }

    fn parse_if_statement(&mut self) -> (r: Result<Stmt>)
        requires
            old(self).wf(),
        ensures
            final(self).wf(),
            final(self).tokens == old(self).tokens,
            final(self).current >= old(self).current,
            r is Ok ==> final(self).current > old(self).current,
            r matches Err(e) ==> e is ParseError,
            r matches Ok(st) ==> stmt_parsed(old(self).spec_tokens(), old(self).position(), final(self).position(), st),
            old(self).kind_here(0) == TokenKind::If ==> sreads(old(self), final(self), StmtRule::Stmt, r is Ok),
            r matches Ok(st) ==> (st matches Stmt::If { condition, .. } && well_nested(*condition)),
        decreases old(self).remaining(), 2int,
    {
        self.consume(TokenKind::If, "expect 'if'")?;
        self.consume(TokenKind::LeftParen, "expect '(' after 'if'")?;
        let condition = self.parse_expression()?;
        let ghost c = self.current as int;
        self.consume(TokenKind::RightParen, "expect ')' after if condition")?;
        let then_branch = self.parse_statement()?;
        let ghost e1 = self.current as int;
        assert(branch_parts(c, e1));
        let else_branch = if self.match_kind(TokenKind::Else) {
            Some(Box::new(self.parse_statement()?))
        } else {
            None
        };
        Ok(
            Stmt::If {
                condition: Box::new(condition),
                then_branch: Box::new(then_branch),
                else_branch,
            },
        )
    }

    fn parse_while_loop(&mut self) -> (r: Result<Stmt>)
        requires
            old(self).wf(),
        ensures
            final(self).wf(),
            final(self).tokens == old(self).tokens,
            final(self).current >= old(self).current,
            r is Ok ==> final(self).current > old(self).current,
            r matches Err(e) ==> e is ParseError,
            r matches Ok(st) ==> stmt_parsed(old(self).spec_tokens(), old(self).position(), final(self).position(), st),
            old(self).kind_here(0) == TokenKind::While ==> sreads(old(self), final(self), StmtRule::Stmt, r is Ok),
            r matches Ok(st) ==> (st matches Stmt::While { condition, .. }
                && well_nested(*condition)),
        decreases old(self).remaining(), 2int,
    {
        self.consume(TokenKind::While, "expect 'while'")?;
        self.consume(TokenKind::LeftParen, "expect '(' after 'while'")?;
        let condition = self.parse_expression()?;
        let ghost c = self.current as int;
        assert(branch_parts(c, c));
        self.consume(TokenKind::RightParen, "expect ')' after while condition")?;
        let body = self.parse_statement()?;
        Ok(Stmt::While { condition: Box::new(condition), body: Box::new(body) })
    }

    fn parse_print_statement(&mut self) -> (r: Result<Stmt>)
        requires
            old(self).wf(),
        ensures
            final(self).wf(),
            final(self).tokens == old(self).tokens,
            final(self).current >= old(self).current,
            r is Ok ==> final(self).current > old(self).current,
            r matches Err(e) ==> e is ParseError,
            old(self).kind_here(0) == TokenKind::Print ==> sreads(old(self), final(self), StmtRule::Stmt, r is Ok),
            old(self).kind_here(0) == TokenKind::Print ==> reads_simple(old(self), final(self), r),
            r matches Ok(st) ==> (st matches Stmt::Print { expr } && parsed_expr(
                    old(self).spec_tokens(),
                    old(self).position() + 1,
                    final(self).position() - 1,
                    *expr,
                    1,
                )
                && final(self).kind_here(-1) == TokenKind::Semicolon),
        decreases old(self).remaining(), 2int,
    {
        self.consume(TokenKind::Print, "expect 'print'")?;
        let expr = self.parse_expression()?;
        self.consume(TokenKind::Semicolon, "expect ';' after print statement")?;
        Ok(Stmt::Print { expr: Box::new(expr) })
    }

    fn parse_return_statement(&mut self) -> (r: Result<Stmt>)
        requires
            old(self).wf(),
        ensures
            final(self).wf(),
            final(self).tokens == old(self).tokens,
            final(self).current >= old(self).current,
            r is Ok ==> final(self).current > old(self).current,
            r matches Err(e) ==> e is ParseError,
            old(self).kind_here(0) == TokenKind::Return ==> sreads(old(self), final(self), StmtRule::Stmt, r is Ok),
            old(self).kind_here(0) == TokenKind::Return ==> reads_simple(old(self), final(self), r),
            r matches Ok(st) ==> (st matches Stmt::Return { keyword, value }
                && keyword == old(self).token_here(0)
                && final(self).kind_here(-1) == TokenKind::Semicolon
                && match value {
                    None => final(self).current as int == old(self).current as int + 2,
                    Some(e) => parsed_expr(
                    old(self).spec_tokens(),
                    old(self).position() + 1,
                    final(self).position() - 1,
                    *e,
                    1,
                ),
                }),
        decreases old(self).remaining(), 2int,
    {
        let keyword = self.consume(TokenKind::Return, "expect 'return'")?;
        let value = if self.check(TokenKind::Semicolon) {
            None
        } else {
            Some(Box::new(self.parse_expression()?))
        };
        self.consume(TokenKind::Semicolon, "expect ';' after return value")?;
        Ok(Stmt::Return { keyword, value })
    }

    #[verifier::spinoff_prover]
    #[verifier::rlimit(100)]
    fn parse_function_declaration(&mut self) -> (r: Result<Stmt>)
        requires
            old(self).wf(),
        ensures
            final(self).wf(),
            final(self).tokens == old(self).tokens,
            final(self).current >= old(self).current,
            r is Ok ==> final(self).current > old(self).current,
            r matches Err(e) ==> e is ParseError,
            r matches Ok(st) ==> stmt_parsed(old(self).spec_tokens(), old(self).position(), final(self).position(), st),
            old(self).kind_here(0) == TokenKind::Fun ==> sreads(old(self), final(self), StmtRule::Stmt, r is Ok),
            r matches Ok(st) ==> (st matches Stmt::FunctionDeclaration(d)
                && d.name == old(self).token_here(1)
                && d.name.token_type.spec_kind() == TokenKind::Identifier && forall|i: int|
                0 <= i < d.params@.len() ==> #[trigger] d.params@[i].token_type.spec_kind()
                    == TokenKind::Identifier),
        decreases old(self).remaining(), 2int,
    {
        self.consume(TokenKind::Fun, "expect 'fun'")?;
        let name = self.consume(TokenKind::Identifier, "expect function name")?;
        self.consume(TokenKind::LeftParen, "expect '(' after function name")?;
        let mut params: Vec<Token> = Vec::new();
        if !self.check(TokenKind::RightParen) {
            loop
                invariant_except_break
                    self.current == old(self).current + 3 + 2 * params@.len(),
                    stmt_end(self.tokens@, old(self).current + 3, StmtRule::Params) == stmt_end(
                        self.tokens@,
                        self.current as int,
                        StmtRule::Params,
                    ),
                invariant
                    self.wf(),
                    self.tokens == old(self).tokens,
                    self.current > old(self).current,
                    forall|i: int|
                        0 <= i < params@.len() ==> #[trigger] params@[i].token_type.spec_kind()
                            == TokenKind::Identifier,
                    old(self).current + 3 <= self.current,
                    kind_at(self.tokens@, old(self).current as int) == TokenKind::Fun,
                    kind_at(self.tokens@, old(self).current + 1) == TokenKind::Identifier,
                    kind_at(self.tokens@, old(self).current + 2) == TokenKind::LeftParen,
                    kind_at(self.tokens@, old(self).current + 3) != TokenKind::RightParen,
                    forall|i: int|
                        0 <= i < params@.len() ==> #[trigger] params@[i] == self.tokens@[old(
                            self,
                        ).current + 3 + 2 * i],
                ensures
                    forall|i: int|
                        0 <= i < params@.len() ==> #[trigger] params@[i] == self.tokens@[old(
                            self,
                        ).current + 3 + 2 * i],
                    stmt_end(self.tokens@, old(self).current + 3, StmtRule::Params) == Some(
                        self.current as int,
                    ),
                    self.wf(),
                    self.tokens == old(self).tokens,
                    self.current > old(self).current,
                    forall|i: int|
                        0 <= i < params@.len() ==> #[trigger] params@[i].token_type.spec_kind()
                            == TokenKind::Identifier,
                decreases self.remaining(),
            {
                let ghost before = params@;
                let ghost at = self.current as int;
                let param = self.consume(TokenKind::Identifier, "expect parameter name")?;
                params.push(param);
                assert forall|i: int|
                    0 <= i < params@.len() implies #[trigger] params@[i] == self.tokens@[old(
                        self,
                    ).current + 3 + 2 * i] by {
                    if i < before.len() {
                        assert(params@[i] == before[i]);
                    } else {
                        assert(params@[i] == param);
                        assert(at == old(self).current + 3 + 2 * i);
                    }
                }
                if !self.match_kind(TokenKind::Comma) {
                    break ;
                }
            }
        }
        let ghost q = self.current as int;
        self.consume(TokenKind::RightParen, "expect ')' after parameters")?;
        let body = self.parse_block_items()?;
        proof {
            let starts = choose|starts: Seq<int>|
                #[trigger] statement_starts(starts) && starts.len() == body@.len() + 1 && starts[0]
                    == q + 2 && starts[body@.len() as int] == self.current - 1 && forall|i: int|
                    0 <= i < body@.len() ==> q + 1 < #[trigger] starts[i] < starts[i + 1]
                        < self.current && stmt_parsed(self.tokens@, starts[i], starts[i + 1], body@[i]);
            assert(function_parts(q, starts));
        }
        Ok(Stmt::FunctionDeclaration(Rc::new(FunctionDeclaration { name, params, body })))
    }

    fn parse_variable_declaration(&mut self) -> (r: Result<Stmt>)
        requires
            old(self).wf(),
        ensures
            final(self).wf(),
            final(self).tokens == old(self).tokens,
            final(self).current >= old(self).current,
            r is Ok ==> final(self).current > old(self).current,
            r matches Err(e) ==> e is ParseError,
            old(self).kind_here(0) == TokenKind::Var ==> reads_simple(old(self), final(self), r),
            old(self).kind_here(0) != TokenKind::Var ==> r is Err,
            old(self).kind_here(0) == TokenKind::Var && old(self).kind_here(1) != TokenKind::Identifier
                ==> r is Err,
            old(self).kind_here(0) == TokenKind::Var && old(self).kind_here(1) == TokenKind::Identifier
                && old(self).kind_here(2) == TokenKind::Semicolon ==> r == Ok::<Stmt, Error>(
                Stmt::VariableDeclaration { name: old(self).token_here(1), initializer: None },
            ) && final(self).position() == old(self).position() + 3,
            old(self).kind_here(0) == TokenKind::Var && old(self).kind_here(1) == TokenKind::Identifier
                && old(self).kind_here(2) != TokenKind::Semicolon && old(self).kind_here(2)
                != TokenKind::Equal ==> r is Err,
            r matches Ok(st) ==> (st matches Stmt::VariableDeclaration { name, initializer }
                && name == old(self).token_here(1)
                && name.token_type.spec_kind() == TokenKind::Identifier
                && final(self).kind_here(-1) == TokenKind::Semicolon
                && match initializer {
                    None => final(self).current as int == old(self).current as int + 3,
                    Some(e) => old(self).kind_here(2) == TokenKind::Equal && parsed_expr(
                    old(self).spec_tokens(),
                    old(self).position() + 3,
                    final(self).position() - 1,
                    *e,
                    1,
                ),
                }),
        decreases old(self).remaining(), 2int,
    {
        self.consume(TokenKind::Var, "expect 'var'")?;
        let name = self.consume(TokenKind::Identifier, "expect variable name")?;
        let initializer = if self.match_kind(TokenKind::Equal) {
            Some(Box::new(self.parse_expression()?))
        } else {
            None
        };
        self.consume(TokenKind::Semicolon, "expect ';' after variable declaration")?;
        Ok(Stmt::VariableDeclaration { name, initializer })
    }

    fn parse_expression_statement(&mut self) -> (r: Result<Stmt>)
        requires
            old(self).wf(),
        ensures
            final(self).wf(),
            final(self).tokens == old(self).tokens,
            final(self).current >= old(self).current,
            r is Ok ==> final(self).current > old(self).current,
            r matches Err(e) ==> e is ParseError,
            !starts_expression(old(self).kind_here(0)) ==> r is Err,
            !(old(self).kind_here(0) == TokenKind::For || old(self).kind_here(0) == TokenKind::If
                || old(self).kind_here(0) == TokenKind::While || old(self).kind_here(0)
                == TokenKind::LeftBrace || old(self).kind_here(0) == TokenKind::Fun || old(self).kind_here(0)
                == TokenKind::Print || old(self).kind_here(0) == TokenKind::Return) ==> sreads(
                old(self),
                final(self),
                StmtRule::Stmt,
                r is Ok,
            ),
            is_simple_start(old(self).kind_here(0)) && old(self).kind_here(0) != TokenKind::Print
                && old(self).kind_here(0) != TokenKind::Var && old(self).kind_here(0) != TokenKind::Return
                ==> reads_simple(old(self), final(self), r),
            (r is Ok) == (expr_then_semicolon(old(self).spec_tokens(), old(self).position()) is Some),
            r is Ok ==> expr_then_semicolon(old(self).spec_tokens(), old(self).position()) == Some(
                final(self).position(),
            ),
            r matches Ok(st) ==> (st matches Stmt::Expression { expr } && parsed_expr(
                    old(self).spec_tokens(),
                    old(self).position(),
                    final(self).position() - 1,
                    *expr,
                    1,
                )
                && final(self).kind_here(-1) == TokenKind::Semicolon),
        decreases old(self).remaining(), 1int,
    {
        let expr = self.parse_expression()?;
        self.consume(TokenKind::Semicolon, "expect ';' after expression")?;
        Ok(Stmt::Expression { expr: Box::new(expr) })
    }

    fn parse_expression(&mut self) -> (r: Result<Expr>)
        requires
            old(self).wf(),
        ensures
            final(self).wf(),
            final(self).tokens == old(self).tokens,
            final(self).current >= old(self).current,
            r is Ok ==> final(self).current > old(self).current,
            r matches Ok(e) ==> old(self).parsed_up_to(final(self), e, 1),
            r matches Err(e) ==> e is ParseError,
            !starts_expression(old(self).kind_here(0)) ==> r is Err,
            reads(old(self), final(self), Rule::Assign, r is Ok),
        decreases old(self).remaining(), 10int,
    {
        self.parse_assignment()
    }

    fn parse_assignment(&mut self) -> (r: Result<Expr>)
        requires
            old(self).wf(),
        ensures
            final(self).wf(),
            final(self).tokens == old(self).tokens,
            final(self).current >= old(self).current,
            r is Ok ==> final(self).current > old(self).current,
            r matches Ok(e) ==> old(self).parsed_up_to(final(self), e, 1),
            r matches Err(e) ==> e is ParseError,
            !starts_expression(old(self).kind_here(0)) ==> r is Err,
            expr_end(old(self).spec_tokens(), old(self).position(), Rule::Level(2)) matches Some(q) && old(self).position() < q < old(self).spec_tokens().len() && kind_at(
                old(self).spec_tokens(),
                q,
            ) == TokenKind::Equal && !(q == old(self).position() + 1 && kind_at(old(self).spec_tokens(), old(self).position()) == TokenKind::Identifier)
                && expr_end(old(self).spec_tokens(), q + 1, Rule::Assign) is Some ==> (r matches Err(
                Error::ParseError { msg, .. },
            ) && msg@ == "invalid assignment target"@),
            reads(old(self), final(self), Rule::Assign, r is Ok),
        decreases old(self).remaining(), 9int,
    {
        let ghost a = self.current as int;
        let expr = self.parse_logic_or()?;
        proof {
            lemma_expr_kinds_len(expr);
            let ts = self.tokens@;
            assert(span_kinds(ts, a, self.current as int).len() == self.current - a);
            if self.current == a + 1 {
                lemma_span_one(ts, a);
            }
        }
        if self.check(TokenKind::Equal) {
            let ghost m = self.current as int;
            let equals = self.advance();
            let value = self.parse_assignment()?;
            match expr {
                Expr::Variable { name } => {
                    let r = Expr::Assignment { name, value: Box::new(value) };
                    proof {
                        let ts = self.tokens@;
                        lemma_span_one(ts, m);
                        lemma_span_split(ts, a, m, m + 1);
                        lemma_span_split(ts, a, m + 1, self.current as int);
                        assert(expr_kinds(r) =~= seq![name.token_type.spec_kind(), TokenKind::Equal]
                            + expr_kinds(value));
                        assert(span_kinds(ts, a, self.current as int) =~= expr_kinds(r));
                    }
                    Ok(r)
                },
                _ => Err(
                    Error::ParseError {
                        line: equals.line,
                        msg: String::from_str("invalid assignment target"),
                    },
                ),
            }
        } else {
            Ok(expr)
        }
    }

    fn parse_logic_or(&mut self) -> (r: Result<Expr>)
        requires
            old(self).wf(),
        ensures
            final(self).wf(),
            final(self).tokens == old(self).tokens,
            final(self).current >= old(self).current,
            r is Ok ==> final(self).current > old(self).current,
            r matches Ok(e) ==> old(self).parsed_up_to(final(self), e, 2),
            r matches Err(e) ==> e is ParseError,
            !starts_expression(old(self).kind_here(0)) ==> r is Err,
            reads(old(self), final(self), Rule::Level(2), r is Ok),
        decreases old(self).remaining(), 8int,
    {
        let ghost a = self.current as int;
        let mut expr = self.parse_logic_and()?;
        while self.check(TokenKind::Or)
            invariant
                self.wf(),
                self.tokens == old(self).tokens,
                self.current > old(self).current,
                a == old(self).current,
                parsed_expr(self.tokens@, a, self.current as int, expr, 2),
                expr_end(self.tokens@, a, Rule::Level(2)) == expr_end(
                    self.tokens@,
                    self.current as int,
                    Rule::LevelTail(2),
                ),
            decreases self.remaining(),
        {
            let ghost m = self.current as int;
            let operator = self.advance();
            let right = self.parse_logic_and()?;
            let ghost left = expr;
            expr = Expr::LogicOr { left: Box::new(expr), operator, right: Box::new(right) };
            proof {
                let ts = self.tokens@;
                lemma_span_one(ts, m);
                lemma_span_split(ts, a, m, m + 1);
                lemma_span_split(ts, a, m + 1, self.current as int);
                assert(expr_kinds(expr) =~= expr_kinds(left) + seq![operator.token_type.spec_kind()]
                    + expr_kinds(right));
                assert(span_kinds(ts, a, self.current as int) =~= expr_kinds(expr));
            }
        }
        Ok(expr)
    }

    fn parse_logic_and(&mut self) -> (r: Result<Expr>)
        requires
            old(self).wf(),
        ensures
            final(self).wf(),
            final(self).tokens == old(self).tokens,
            final(self).current >= old(self).current,
            r is Ok ==> final(self).current > old(self).current,
            r matches Ok(e) ==> old(self).parsed_up_to(final(self), e, 3),
            r matches Err(e) ==> e is ParseError,
            !starts_expression(old(self).kind_here(0)) ==> r is Err,
            reads(old(self), final(self), Rule::Level(3), r is Ok),
        decreases old(self).remaining(), 7int,
    {
        let ghost a = self.current as int;
        let mut expr = self.parse_equality()?;
        while self.check(TokenKind::And)
            invariant
                self.wf(),
                self.tokens == old(self).tokens,
                self.current > old(self).current,
                a == old(self).current,
                parsed_expr(self.tokens@, a, self.current as int, expr, 3),
                expr_end(self.tokens@, a, Rule::Level(3)) == expr_end(
                    self.tokens@,
                    self.current as int,
                    Rule::LevelTail(3),
                ),
            decreases self.remaining(),
        {
            let ghost m = self.current as int;
            let operator = self.advance();
            let right = self.parse_equality()?;
            let ghost left = expr;
            expr = Expr::LogicAnd { left: Box::new(expr), operator, right: Box::new(right) };
            proof {
                let ts = self.tokens@;
                lemma_span_one(ts, m);
                lemma_span_split(ts, a, m, m + 1);
                lemma_span_split(ts, a, m + 1, self.current as int);
                assert(expr_kinds(expr) =~= expr_kinds(left) + seq![operator.token_type.spec_kind()]
                    + expr_kinds(right));
                assert(span_kinds(ts, a, self.current as int) =~= expr_kinds(expr));
            }
        }
        Ok(expr)
    }

    fn parse_equality(&mut self) -> (r: Result<Expr>)
        requires
            old(self).wf(),
        ensures
            final(self).wf(),
            final(self).tokens == old(self).tokens,
            final(self).current >= old(self).current,
            r is Ok ==> final(self).current > old(self).current,
            r matches Ok(e) ==> old(self).parsed_up_to(final(self), e, 4),
            r matches Err(e) ==> e is ParseError,
            !starts_expression(old(self).kind_here(0)) ==> r is Err,
            reads(old(self), final(self), Rule::Level(4), r is Ok),
        decreases old(self).remaining(), 6int,
    {
        let ghost a = self.current as int;
        let mut expr = self.parse_comparison()?;
        while self.check(TokenKind::BangEqual) || self.check(TokenKind::EqualEqual)
            invariant
                self.wf(),
                self.tokens == old(self).tokens,
                self.current > old(self).current,
                a == old(self).current,
                parsed_expr(self.tokens@, a, self.current as int, expr, 4),
                expr_end(self.tokens@, a, Rule::Level(4)) == expr_end(
                    self.tokens@,
                    self.current as int,
                    Rule::LevelTail(4),
                ),
            decreases self.remaining(),
        {
            let ghost m = self.current as int;
            let operator = self.advance();
            let right = self.parse_comparison()?;
            let ghost left = expr;
            expr = Expr::Binary { left: Box::new(expr), operator, right: Box::new(right) };
            proof {
                let ts = self.tokens@;
                lemma_span_one(ts, m);
                lemma_span_split(ts, a, m, m + 1);
                lemma_span_split(ts, a, m + 1, self.current as int);
                assert(expr_kinds(expr) =~= expr_kinds(left) + seq![operator.token_type.spec_kind()]
                    + expr_kinds(right));
                assert(span_kinds(ts, a, self.current as int) =~= expr_kinds(expr));
            }
        }
        Ok(expr)
    }

    fn parse_comparison(&mut self) -> (r: Result<Expr>)
        requires
            old(self).wf(),
        ensures
            final(self).wf(),
            final(self).tokens == old(self).tokens,
            final(self).current >= old(self).current,
            r is Ok ==> final(self).current > old(self).current,
            r matches Ok(e) ==> old(self).parsed_up_to(final(self), e, 5),
            r matches Err(e) ==> e is ParseError,
            !starts_expression(old(self).kind_here(0)) ==> r is Err,
            reads(old(self), final(self), Rule::Level(5), r is Ok),
        decreases old(self).remaining(), 5int,
    {
        let ghost a = self.current as int;
        let mut expr = self.parse_term()?;
        while self.check(TokenKind::Greater) || self.check(TokenKind::GreaterEqual) || self.check(
            TokenKind::Less,
        ) || self.check(TokenKind::LessEqual)
            invariant
                self.wf(),
                self.tokens == old(self).tokens,
                self.current > old(self).current,
                a == old(self).current,
                parsed_expr(self.tokens@, a, self.current as int, expr, 5),
                expr_end(self.tokens@, a, Rule::Level(5)) == expr_end(
                    self.tokens@,
                    self.current as int,
                    Rule::LevelTail(5),
                ),
            decreases self.remaining(),
        {
            let ghost m = self.current as int;
            let operator = self.advance();
            let right = self.parse_term()?;
            let ghost left = expr;
            expr = Expr::Binary { left: Box::new(expr), operator, right: Box::new(right) };
            proof {
                let ts = self.tokens@;
                lemma_span_one(ts, m);
                lemma_span_split(ts, a, m, m + 1);
                lemma_span_split(ts, a, m + 1, self.current as int);
                assert(expr_kinds(expr) =~= expr_kinds(left) + seq![operator.token_type.spec_kind()]
                    + expr_kinds(right));
                assert(span_kinds(ts, a, self.current as int) =~= expr_kinds(expr));
            }
        }
        Ok(expr)
    }

    fn parse_term(&mut self) -> (r: Result<Expr>)
        requires
            old(self).wf(),
        ensures
            final(self).wf(),
            final(self).tokens == old(self).tokens,
            final(self).current >= old(self).current,
            r is Ok ==> final(self).current > old(self).current,
            r matches Ok(e) ==> old(self).parsed_up_to(final(self), e, 6),
            r matches Err(e) ==> e is ParseError,
            !starts_expression(old(self).kind_here(0)) ==> r is Err,
            reads(old(self), final(self), Rule::Level(6), r is Ok),
        decreases old(self).remaining(), 4int,
    {
        let ghost a = self.current as int;
        let mut expr = self.parse_factor()?;
        while self.check(TokenKind::Minus) || self.check(TokenKind::Plus)
            invariant
                self.wf(),
                self.tokens == old(self).tokens,
                self.current > old(self).current,
                a == old(self).current,
                parsed_expr(self.tokens@, a, self.current as int, expr, 6),
                expr_end(self.tokens@, a, Rule::Level(6)) == expr_end(
                    self.tokens@,
                    self.current as int,
                    Rule::LevelTail(6),
                ),
            decreases self.remaining(),
        {
            let ghost m = self.current as int;
            let operator = self.advance();
            let right = self.parse_factor()?;
            let ghost left = expr;
            expr = Expr::Binary { left: Box::new(expr), operator, right: Box::new(right) };
            proof {
                let ts = self.tokens@;
                lemma_span_one(ts, m);
                lemma_span_split(ts, a, m, m + 1);
                lemma_span_split(ts, a, m + 1, self.current as int);
                assert(expr_kinds(expr) =~= expr_kinds(left) + seq![operator.token_type.spec_kind()]
                    + expr_kinds(right));
                assert(span_kinds(ts, a, self.current as int) =~= expr_kinds(expr));
            }
        }
        Ok(expr)
    }

    fn parse_factor(&mut self) -> (r: Result<Expr>)
        requires
            old(self).wf(),
        ensures
            final(self).wf(),
            final(self).tokens == old(self).tokens,
            final(self).current >= old(self).current,
            r is Ok ==> final(self).current > old(self).current,
            r matches Ok(e) ==> old(self).parsed_up_to(final(self), e, 7),
            r matches Err(e) ==> e is ParseError,
            !starts_expression(old(self).kind_here(0)) ==> r is Err,
            reads(old(self), final(self), Rule::Level(7), r is Ok),
        decreases old(self).remaining(), 3int,
    {
        let ghost a = self.current as int;
        let mut expr = self.parse_unary()?;
        while self.check(TokenKind::Slash) || self.check(TokenKind::Star)
            invariant
                self.wf(),
                self.tokens == old(self).tokens,
                self.current > old(self).current,
                a == old(self).current,
                parsed_expr(self.tokens@, a, self.current as int, expr, 7),
                expr_end(self.tokens@, a, Rule::Level(7)) == expr_end(
                    self.tokens@,
                    self.current as int,
                    Rule::LevelTail(7),
                ),
            decreases self.remaining(),
        {
            let ghost m = self.current as int;
            let operator = self.advance();
            let right = self.parse_unary()?;
            let ghost left = expr;
            expr = Expr::Binary { left: Box::new(expr), operator, right: Box::new(right) };
            proof {
                let ts = self.tokens@;
                lemma_span_one(ts, m);
                lemma_span_split(ts, a, m, m + 1);
                lemma_span_split(ts, a, m + 1, self.current as int);
                assert(expr_kinds(expr) =~= expr_kinds(left) + seq![operator.token_type.spec_kind()]
                    + expr_kinds(right));
                assert(span_kinds(ts, a, self.current as int) =~= expr_kinds(expr));
            }
        }
        Ok(expr)
    }

    fn parse_unary(&mut self) -> (r: Result<Expr>)
        requires
            old(self).wf(),
        ensures
            final(self).wf(),
            final(self).tokens == old(self).tokens,
            final(self).current >= old(self).current,
            r is Ok ==> final(self).current > old(self).current,
            r matches Ok(e) ==> old(self).parsed_up_to(final(self), e, 8),
            r matches Err(e) ==> e is ParseError,
            !starts_expression(old(self).kind_here(0)) ==> r is Err,
            reads(old(self), final(self), Rule::Unary, r is Ok),
        decreases old(self).remaining(), 2int,
    {
        let ghost a = self.current as int;
        if self.check(TokenKind::Bang) || self.check(TokenKind::Minus) {
            let operator = self.advance();
            let right = self.parse_unary()?;
            let r = Expr::Unary { operator, right: Box::new(right) };
            proof {
                let ts = self.tokens@;
                lemma_span_one(ts, a);
                lemma_span_split(ts, a, a + 1, self.current as int);
            }
            Ok(r)
        } else {
            self.parse_call()
        }
    }

    /// The arguments of a call, after its `(`: expressions separated by commas.
    #[verifier::spinoff_prover]
    #[verifier::rlimit(100)]
    fn parse_arguments(&mut self) -> (r: Result<Vec<Expr>>)
        requires
            old(self).wf(),
            old(self).current >= 1,
        ensures
            final(self).wf(),
            final(self).tokens == old(self).tokens,
            final(self).current >= old(self).current,
            r is Ok ==> final(self).current > old(self).current,
            r matches Err(e) ==> e is ParseError,
            reads(old(self), final(self), Rule::Args, r is Ok),
            r matches Ok(args) ==> span_kinds(
                old(self).tokens@,
                old(self).current as int,
                final(self).current as int,
            ) == args_kinds(args@),
            r matches Ok(args) ==> forall|i: int|
                0 <= i < args@.len() ==> well_nested(#[trigger] args@[i]),
            r matches Ok(args) ==> forall|i: int|
                0 <= i < args@.len() ==> holds_tokens(
                    old(self).tokens@,
                    arg_start(old(self).current - 1, args@, i),
                    #[trigger] args@[i],
                ),
        decreases old(self).remaining(), 11int,
    {
        let ghost p = self.current - 1;
        let mut args: Vec<Expr> = Vec::new();
        loop
            invariant_except_break
                args.len() == 0 ==> self.current == p + 1,
                args.len() > 0 ==> span_kinds(self.tokens@, p + 1, self.current as int)
                    == args_kinds(args@) + seq![TokenKind::Comma],
                expr_end(self.tokens@, p + 1, Rule::Args) == expr_end(
                    self.tokens@,
                    self.current as int,
                    Rule::Args,
                ),
            invariant
                self.wf(),
                self.tokens == old(self).tokens,
                self.current > p,
                p + 1 == old(self).current,
                forall|i: int| 0 <= i < args@.len() ==> well_nested(#[trigger] args@[i]),
                forall|i: int|
                    0 <= i < args@.len() ==> holds_tokens(
                        self.tokens@,
                        arg_start(p, args@, i),
                        #[trigger] args@[i],
                    ),
            ensures
                self.wf(),
                self.tokens == old(self).tokens,
                self.current > p + 1,
                span_kinds(self.tokens@, p + 1, self.current as int) == args_kinds(args@),
                expr_end(self.tokens@, p + 1, Rule::Args) == Some(self.current as int),
                forall|i: int| 0 <= i < args@.len() ==> well_nested(#[trigger] args@[i]),
                forall|i: int|
                    0 <= i < args@.len() ==> holds_tokens(
                        self.tokens@,
                        arg_start(p, args@, i),
                        #[trigger] args@[i],
                    ),
            decreases self.remaining(),
        {
            let ghost c0 = self.current as int;
            let ghost before = args@;
            let arg = self.parse_expression()?;
            let ghost e = arg;
            args.push(arg);
            proof {
                let ts = self.tokens@;
                assert(args@.subrange(0, args@.len() - 1) =~= before);
                if before.len() == 0 {
                    assert(span_kinds(ts, p + 1, p + 1) =~= Seq::<TokenKind>::empty());
                    lemma_span_split(ts, p + 1, c0, self.current as int);
                    assert(span_kinds(ts, p + 1, self.current as int) =~= expr_kinds(e));
                } else {
                    lemma_span_split(ts, p + 1, c0, self.current as int);
                }
                assert(args_kinds(args@) == span_kinds(ts, p + 1, self.current as int));
                let n = before.len() as int;
                assert(span_kinds(ts, p + 1, c0).len() == c0 - (p + 1));
                if n > 0 {
                    assert(args@.subrange(0, n) =~= before);
                }
                assert(arg_start(p, args@, n) == c0);
                assert forall|j: int| 0 <= j < args@.len() implies holds_tokens(
                    ts,
                    arg_start(p, args@, j),
                    #[trigger] args@[j],
                ) by {
                    if j < n {
                        assert(args@.subrange(0, j) =~= before.subrange(0, j));
                        assert(args@[j] == before[j]);
                    }
                }
            }
            let ghost c1 = self.current as int;
            if !self.match_kind(TokenKind::Comma) {
                break ;
            }
            proof {
                let ts = self.tokens@;
                lemma_span_one(ts, c1);
                lemma_span_split(ts, p + 1, c1, c1 + 1);
            }
        }
        Ok(args)
    }

    #[verifier::spinoff_prover]
    #[verifier::rlimit(100)]
    fn parse_call(&mut self) -> (r: Result<Expr>)
        requires
            old(self).wf(),
        ensures
            final(self).wf(),
            final(self).tokens == old(self).tokens,
            final(self).current >= old(self).current,
            r is Ok ==> final(self).current > old(self).current,
            r matches Ok(e) ==> old(self).parsed_up_to(final(self), e, 9),
            r matches Err(e) ==> e is ParseError,
            !starts_expression(old(self).kind_here(0)) ==> r is Err,
            reads(old(self), final(self), Rule::Call, r is Ok),
        decreases old(self).remaining(), 1int,
    {
        let ghost a = self.current as int;
        let mut expr = self.parse_primary()?;
        while self.check(TokenKind::LeftParen)
            invariant
                self.wf(),
                self.tokens == old(self).tokens,
                self.current > old(self).current,
                a == old(self).current,
                parsed_expr(self.tokens@, a, self.current as int, expr, 9),
                expr_end(self.tokens@, a, Rule::Call) == expr_end(
                    self.tokens@,
                    self.current as int,
                    Rule::CallTail,
                ),
            decreases self.remaining(),
        {
            let ghost p = self.current as int;
            self.advance();
            let args = if !self.check(TokenKind::RightParen) {
                self.parse_arguments()?
            } else {
                assert(span_kinds(self.tokens@, p + 1, p + 1) =~= args_kinds(Seq::<Expr>::empty()));
                Vec::new()
            };
            let ghost q = self.current as int;
            let paren = self.consume(TokenKind::RightParen, "expect ')' after arguments")?;
            let ghost callee = expr;
            expr = Expr::Call { callee: Box::new(expr), paren, args };
            proof {
                let ts = self.tokens@;
                lemma_span_one(ts, p);
                lemma_span_one(ts, q);
                lemma_span_split(ts, a, p, p + 1);
                lemma_span_split(ts, a, p + 1, q);
                lemma_span_split(ts, a, q, q + 1);
                assert(expr_kinds(expr) =~= expr_kinds(callee) + seq![TokenKind::LeftParen]
                    + args_kinds(args@) + seq![TokenKind::RightParen]);
                assert(span_kinds(ts, a, self.current as int) =~= expr_kinds(expr));
                assert(span_kinds(ts, a, p).len() == p - a);
                assert(span_kinds(ts, p + 1, q).len() == q - (p + 1));
                assert(holds_tokens(ts, a, expr));
            }
        }
        Ok(expr)
    }

    fn parse_primary(&mut self) -> (r: Result<Expr>)
        requires
            old(self).wf(),
        ensures
            final(self).wf(),
            final(self).tokens == old(self).tokens,
            final(self).current >= old(self).current,
            r is Ok ==> final(self).current > old(self).current,
            r matches Ok(e) ==> old(self).parsed_up_to(final(self), e, 10),
            r matches Err(e) ==> e is ParseError,
            !starts_expression(old(self).kind_here(0)) ==> r is Err,
            !is_literal_kind(old(self).kind_here(0)) && old(self).kind_here(0) != TokenKind::Identifier
                && old(self).kind_here(0) != TokenKind::LeftParen ==> (r matches Err(
                Error::ParseError { line, msg },
            ) && line == old(self).token_here(0).line && msg@ == "expect expression"@
                && final(self).position() == old(self).position()),
            reads(old(self), final(self), Rule::Primary, r is Ok),
            is_literal_kind(old(self).kind_here(0)) ==> r == Ok::<Expr, Error>(
                Expr::Literal { value: old(self).token_here(0) },
            ) && final(self).position() == old(self).position() + 1,
            old(self).kind_here(0) == TokenKind::Identifier ==> r == Ok::<Expr, Error>(
                Expr::Variable { name: old(self).token_here(0) },
            ) && final(self).position() == old(self).position() + 1,
            !is_literal_kind(old(self).kind_here(0)) && old(self).kind_here(0) != TokenKind::Identifier
                && old(self).kind_here(0) != TokenKind::LeftParen ==> r is Err,
            old(self).kind_here(0) == TokenKind::LeftParen ==> (r matches Ok(e) ==> e is Grouping
                && final(self).kind_here(-1) == TokenKind::RightParen),
        decreases old(self).remaining(), 0int,
    {
        let ghost a = self.current as int;
        proof {
            lemma_span_one(self.tokens@, a);
        }
        let k = self.tokens[self.current].token_type.kind();
        match k {
            TokenKind::True | TokenKind::False | TokenKind::Nil | TokenKind::Number
            | TokenKind::String => {
                let value = self.advance();
                assert(span_kinds(self.tokens@, a, a + 1) =~= expr_kinds(Expr::Literal { value }));
                Ok(Expr::Literal { value })
            },
            TokenKind::Identifier => {
                let name = self.advance();
                assert(span_kinds(self.tokens@, a, a + 1) =~= expr_kinds(Expr::Variable { name }));
                Ok(Expr::Variable { name })
            },
            TokenKind::LeftParen => {
                self.advance();
                let expr = self.parse_expression()?;
                let ghost q = self.current as int;
                self.consume(TokenKind::RightParen, "expect ')' after expression")?;
                let r = Expr::Grouping { expr: Box::new(expr) };
                proof {
                    let ts = self.tokens@;
                    lemma_span_one(ts, q);
                    lemma_span_split(ts, a, a + 1, q);
                    lemma_span_split(ts, a, q, q + 1);
                    assert(expr_kinds(r) =~= seq![TokenKind::LeftParen] + expr_kinds(expr) + seq![
                        TokenKind::RightParen,
                    ]);
                    assert(span_kinds(ts, a, self.current as int) =~= expr_kinds(r));
                }
                Ok(r)
            },
            _ => Err(self.error("expect expression")),
        }
    }
}

} // verus!
