//! A tree-walking interpreter for a small dynamically-typed scripting language:
//! scanning, recursive-descent parsing and evaluation over an arena of scopes.
use vstd::prelude::*;

pub mod environment;
pub mod error;
pub mod expr;
pub mod interpreter;
pub mod number;
pub mod operators;
pub mod parser;
pub mod scanner;
pub mod semantics;
pub mod stmt;
pub mod token;
pub mod value;

pub use error::{Error, Result};
pub use interpreter::Interpreter;
pub use parser::Parser;
pub use scanner::Scanner;
pub use value::Value;

verus! {

/// A marker naming the tokens that a run scanned and the statements it parsed
/// from them; the contract of `run` says how they relate to the source.
pub open spec fn program_of(tokens: Seq<token::Token>, stmts: Seq<stmt::Stmt>) -> bool {
    true
}

/// Scans, parses and runs one source text on `interpreter`, whose scopes carry
/// over from earlier runs. What `print` writes waits in the interpreter's
/// output, also when the run fails part way.
pub fn run(source: String, interpreter: &mut Interpreter) -> (r: Result<()>)
    requires
        old(interpreter).wf(),
    ensures
        final(interpreter).follows(old(interpreter)),
        r matches Err(e) ==> e is ScanError || e is ParseError || e is RuntimeError,
        r matches Err(e) && !(e is RuntimeError) ==> *final(interpreter) == *old(interpreter),
        r matches Err(e) && e is ScanError ==> scanner::scan_fails_on(source@),
        r matches Err(e) && e is ParseError ==> exists|tokens: Seq<token::Token>|
            #[trigger] scanner::scanned(tokens) && (exists|starts: Seq<int>|
                scanner::lays_out(tokens.drop_last(), starts, source@)) && parser::stmt_end(
                tokens,
                0,
                parser::StmtRule::Program,
            ) is None,
        !(r matches Err(e) && (e is ScanError || e is ParseError)) ==> exists|
            tokens: Seq<token::Token>,
            stmts: Seq<stmt::Stmt>,
        |
            #[trigger] program_of(tokens, stmts) && scanner::scanned(tokens) && (exists|starts: Seq<int>|
                scanner::lays_out(tokens.drop_last(), starts, source@)) && parser::stmt_end(
                tokens,
                0,
                parser::StmtRule::Program,
            ) is Some && match r {
                Ok(()) => exists|f: semantics::Flow|
                    #[trigger] semantics::ended(f) && semantics::runs(
                        old(interpreter).view(),
                        stmts,
                        final(interpreter).view(),
                        Ok(f),
                    ),
                Err(e) => semantics::runs(
                    old(interpreter).view(),
                    stmts,
                    final(interpreter).view(),
                    Err(e),
                ),
            },
{
    let scanner = Scanner::new(source);
    let tokens = scanner.scan_tokens()?;
    let ghost gt = tokens@;
    let mut parser = Parser::new(tokens);
    let stmts = match parser.parse() {
        Ok(stmts) => stmts,
        Err(e) => {
            assert(scanner::scanned(gt));
            return Err(e);
        },
    };
    let ghost gs = stmts@;
    let r = interpreter.interpret(stmts);
    assert(program_of(gt, gs));
    r
}

} // verus!
