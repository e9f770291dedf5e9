use jlox::expr::Expr;
use jlox::stmt::Stmt;
use jlox::interpreter::{clock_seconds, Interpreter};
use jlox::operators::{binary_op, check_call, literal_value, unary_op};
use jlox::scanner::Scanner;
use jlox::token::{Token, TokenType};
use jlox::value::Value;
use jlox::{run, Error, Parser};

fn render(v: &Value) -> String {
    match v {
        Value::String(s) => s.clone(),
        Value::Number(bits) => format!("{}", f64::from_bits(*bits)),
        Value::Boolean(b) => b.to_string(),
        Value::Nil => "null".to_string(),
        Value::Function(f) => format!("<function {}>", f.declaration.name.text),
        Value::NativeFunction(n) => format!("<native function {}>", n.name),
    }
}

fn run_on(interpreter: &mut Interpreter, source: &str) -> (Vec<String>, Result<(), Error>) {
    let r = run(source.to_string(), interpreter);
    let out = interpreter.take_output().iter().map(render).collect();
    (out, r)
}

fn run_program(source: &str) -> (Vec<String>, Result<(), Error>) {
    let mut interpreter = Interpreter::new();
    run_on(&mut interpreter, source)
}

fn output_of(source: &str) -> Vec<String> {
    let (out, r) = run_program(source);
    assert!(r.is_ok(), "unexpected error: {:?}", r);
    out
}

fn runtime_message(r: &Result<(), Error>) -> String {
    match r {
        Err(Error::RuntimeError { msg, .. }) => msg.clone(),
        other => panic!("expected a runtime error, got {:?}", other),
    }
}

fn scan(source: &str) -> Result<Vec<Token>, Error> {
    Scanner::new(source.to_string()).scan_tokens()
}

fn token(token_type: TokenType, text: &str) -> Token {
    Token::new(token_type, text.to_string(), 1)
}

fn num(x: f64) -> Value {
    Value::Number(x.to_bits())
}

#[test]
fn arithmetic_follows_ieee_doubles() {
    assert_eq!(
        output_of("print 1 + 2 * 3; print 10 / 4; print 0.1 + 0.2; print 7 - 10; print 1 / 0;"),
        vec!["7", "2.5", "0.30000000000000004", "-3", "inf"]
    );
}

#[test]
fn comparisons_follow_ieee_doubles() {
    assert_eq!(
        output_of("print 1 < 2; print 2 <= 2; print 3 > 4; print 3 >= 3; print (0/0) == (0/0); print (0/0) < 1;"),
        vec!["true", "true", "false", "true", "false", "false"]
    );
}

#[test]
fn numbers_wrappers_compute_exact_results() {
    let plus = token(TokenType::Plus, "+");
    let minus = token(TokenType::Minus, "-");
    let star = token(TokenType::Star, "*");
    let slash = token(TokenType::Slash, "/");
    let less = token(TokenType::Less, "<");
    assert!(matches!(binary_op(&plus, num(1.5), num(2.25)), Ok(Value::Number(b)) if f64::from_bits(b) == 3.75));
    assert!(matches!(binary_op(&minus, num(1.5), num(2.25)), Ok(Value::Number(b)) if f64::from_bits(b) == -0.75));
    assert!(matches!(binary_op(&star, num(1.5), num(2.0)), Ok(Value::Number(b)) if f64::from_bits(b) == 3.0));
    assert!(matches!(binary_op(&slash, num(1.0), num(4.0)), Ok(Value::Number(b)) if f64::from_bits(b) == 0.25));
    assert!(matches!(binary_op(&less, num(1.0), num(4.0)), Ok(Value::Boolean(true))));
    assert!(matches!(binary_op(&less, num(4.0), num(1.0)), Ok(Value::Boolean(false))));
    assert!(matches!(unary_op(&minus, num(2.5)), Ok(Value::Number(b)) if f64::from_bits(b) == -2.5));
}

#[test]
fn clock_seconds_divides_milliseconds() {
    assert_eq!(f64::from_bits(clock_seconds(1500)), 1.5);
    assert_eq!(f64::from_bits(clock_seconds(0)), 0.0);
}

#[test]
fn strings_concatenate() {
    assert_eq!(output_of("print \"a\" + \"b\";"), vec!["ab"]);
}

#[test]
fn adding_number_and_string_fails() {
    let (out, r) = run_program("print 1 + \"a\";");
    assert!(out.is_empty());
    assert_eq!(runtime_message(&r), "operands must be numbers or strings");
}

#[test]
fn arithmetic_on_non_numbers_fails() {
    let (_, r) = run_program("print \"a\" - 1;");
    assert_eq!(runtime_message(&r), "operands must be numbers");
    let (_, r) = run_program("print true < 1;");
    assert_eq!(runtime_message(&r), "operands must be numbers");
    let (_, r) = run_program("print -\"a\";");
    assert_eq!(runtime_message(&r), "operand must be a number");
}

#[test]
fn equality_does_not_coerce() {
    assert_eq!(
        output_of("print 2 == 2.0; print 2 == \"2\"; print nil == nil; print \"x\" != \"y\"; print nil == false;"),
        vec!["true", "false", "true", "true", "false"]
    );
}

#[test]
fn truthiness_of_bang() {
    assert_eq!(
        output_of("print !nil; print !false; print !0; print !\"\";"),
        vec!["true", "true", "false", "false"]
    );
}

#[test]
fn logic_operators_short_circuit() {
    assert_eq!(output_of("print false and undefinedcall();"), vec!["false"]);
    assert_eq!(output_of("print true or undefinedcall();"), vec!["true"]);
    assert_eq!(output_of("print nil or \"x\"; print 1 and 2;"), vec!["x", "2"]);
}

#[test]
fn inner_declaration_shadows_outer() {
    assert_eq!(output_of("var x = 1; { var x = 2; print x; } print x;"), vec!["2", "1"]);
}

#[test]
fn block_assignment_reaches_outer() {
    assert_eq!(output_of("var x = 1; { x = 2; } print x;"), vec!["2"]);
}

#[test]
fn closures_capture_declaration_scope() {
    let program = "fun outer() { var x = \"outer\"; fun inner() { print x; } return inner; }
                   var f = outer(); var x = \"global\"; f();";
    assert_eq!(output_of(program), vec!["outer"]);
}

#[test]
fn closures_see_later_updates() {
    let program = "var a = \"before\"; fun show() { print a; } a = \"after\"; show();";
    assert_eq!(output_of(program), vec!["after"]);
    let counter = "fun make() { var count = 0; fun inc() { count = count + 1; return count; } return inc; }
                   var c = make(); print c(); print c();";
    assert_eq!(output_of(counter), vec!["1", "2"]);
}

#[test]
fn assigning_undeclared_name_fails() {
    let (_, r) = run_program("y = 1;");
    assert_eq!(runtime_message(&r), "undefined variable y");
    assert_eq!(output_of("var y; y = 3; print y;"), vec!["3"]);
}

#[test]
fn reading_undeclared_name_fails() {
    let (_, r) = run_program("print z;");
    assert_eq!(runtime_message(&r), "undefined variable z");
}

#[test]
fn wrong_argument_count_fails() {
    let (_, r) = run_program("fun f(a, b) {} f(1);");
    assert_eq!(runtime_message(&r), "expected 2 arguments but got 1 arguments");
    let (_, r) = run_program("fun g(a, b, c, d, e, f, g, h, i, j, k, l) {} g();");
    assert_eq!(runtime_message(&r), "expected 12 arguments but got 0 arguments");
}

#[test]
fn calling_non_function_fails() {
    let (_, r) = run_program("var n = 3; n();");
    assert_eq!(runtime_message(&r), "can only call functions and classes");
}

#[test]
fn check_call_reports_arity() {
    assert!(check_call(&Value::Nil, 0, 4).is_err());
    let mut interpreter = Interpreter::new();
    let (_, r) = run_on(&mut interpreter, "fun f(a) {}");
    assert!(r.is_ok());
    let (out, r) = run_on(&mut interpreter, "print f;");
    assert!(r.is_ok());
    assert_eq!(out, vec!["<function f>"]);
}

#[test]
fn for_loop_prints_and_scopes_its_variable() {
    let (out, r) = run_program("for (var i = 0; i < 3; i = i + 1) print i; print i;");
    assert_eq!(out, vec!["0", "1", "2"]);
    assert_eq!(runtime_message(&r), "undefined variable i");
}

#[test]
fn for_loop_without_clauses_runs_until_return() {
    let program = "fun f() { var n = 0; for (;;) { n = n + 1; if (n == 4) return n; } } print f();";
    assert_eq!(output_of(program), vec!["4"]);
}

#[test]
fn clock_is_non_decreasing() {
    assert_eq!(output_of("var a = clock(); var b = clock(); print b >= a; print a > 0;"), vec!["true", "true"]);
    assert_eq!(output_of("print clock;"), vec!["<native function clock>"]);
}

#[test]
fn while_if_and_recursion() {
    let program = "var i = 0; while (i < 3) { if (i == 1) print \"one\"; else print i; i = i + 1; }
                   fun fib(n) { if (n < 2) return n; return fib(n - 1) + fib(n - 2); } print fib(10);";
    assert_eq!(output_of(program), vec!["0", "one", "2", "55"]);
}

#[test]
fn function_without_return_gives_nil() {
    assert_eq!(output_of("fun f() {} print f();"), vec!["null"]);
}

#[test]
fn declarations_persist_across_runs() {
    let mut interpreter = Interpreter::new();
    let (_, r) = run_on(&mut interpreter, "var a = 40;");
    assert!(r.is_ok());
    let (_, r) = run_on(&mut interpreter, "print nope;");
    assert!(r.is_err());
    let (out, r) = run_on(&mut interpreter, "print a + 2;");
    assert!(r.is_ok());
    assert_eq!(out, vec!["42"]);
}

#[test]
fn output_before_an_error_is_kept() {
    let (out, r) = run_program("print 1; print nope; print 2;");
    assert_eq!(out, vec!["1"]);
    assert!(r.is_err());
}

#[test]
fn scanner_reads_tokens() {
    let tokens = scan("var x = 12.5; // note\n!= <= \"hi\" é2").unwrap();
    let kinds: Vec<String> = tokens.iter().map(|t| format!("{:?}", t.token_type)).collect();
    assert_eq!(kinds[0], "Var");
    assert_eq!(kinds[1], "Identifier");
    assert_eq!(kinds[2], "Equal");
    assert!(matches!(tokens[3].token_type, TokenType::Number(b) if f64::from_bits(b) == 12.5));
    assert_eq!(kinds[4], "Semicolon");
    assert_eq!(kinds[5], "BangEqual");
    assert_eq!(kinds[6], "LessEqual");
    assert!(matches!(&tokens[7].token_type, TokenType::String(s) if s == "hi"));
    assert_eq!(tokens[7].text, "\"hi\"");
    assert_eq!(kinds[8], "Identifier");
    assert_eq!(tokens[8].text, "é2");
    assert_eq!(kinds[9], "Eof");
    assert_eq!(tokens.len(), 10);
    assert_eq!(tokens[5].line, 2);
}

#[test]
fn scanner_counts_lines_in_strings() {
    let tokens = scan("\"a\nb\" x").unwrap();
    assert_eq!(tokens[1].line, 2);
}

#[test]
fn unterminated_string_is_a_scan_error() {
    assert!(matches!(scan("print \"abc"), Err(Error::ScanError { .. })));
    let (_, r) = run_program("print \"abc");
    assert!(matches!(r, Err(Error::ScanError { .. })));
}

#[test]
fn unexpected_character_is_a_scan_error() {
    assert!(matches!(scan("var a = 1 @ 2;"), Err(Error::ScanError { line: 1, .. })));
}

#[test]
fn number_with_trailing_dot_stops_before_it() {
    let tokens = scan("12.").unwrap();
    assert!(matches!(tokens[0].token_type, TokenType::Number(b) if f64::from_bits(b) == 12.0));
    assert!(matches!(tokens[1].token_type, TokenType::Dot));
}

#[test]
fn invalid_assignment_target_is_a_parse_error() {
    let (_, r) = run_program("1 = 2;");
    assert!(matches!(r, Err(Error::ParseError { ref msg, .. }) if msg == "invalid assignment target"));
}

#[test]
fn missing_semicolon_is_a_parse_error() {
    let tokens = scan("print 1\nprint 2;").unwrap();
    let mut parser = Parser::new(tokens);
    assert!(matches!(parser.parse(), Err(Error::ParseError { line: 2, .. })));
}

#[test]
fn parse_error_stops_the_whole_input() {
    let (out, r) = run_program("print 1; print (2;");
    assert!(out.is_empty());
    assert!(matches!(r, Err(Error::ParseError { .. })));
}

#[test]
fn precedence_and_grouping() {
    assert_eq!(
        output_of("print -2 * 3 + 10 / 5; print (1 + 2) * 3; print 1 + 2 == 3 and !(1 > 2);"),
        vec!["-4", "9", "true"]
    );
}

#[test]
fn assignment_is_right_associative() {
    assert_eq!(output_of("var a; var b; a = b = 5; print a; print b;"), vec!["5", "5"]);
}

#[test]
fn error_constructors() {
    assert!(matches!(Error::custom("boom"), Error::Custom(ref m) if m == "boom"));
    let t = Token::new(TokenType::Identifier, "x".to_string(), 7);
    assert!(matches!(Error::runtime(&t, "bad"), Error::RuntimeError { line: 7, ref msg } if msg == "bad"));
}

#[test]
fn underscore_is_a_scan_error() {
    assert!(matches!(scan("var _a = 5;"), Err(Error::ScanError { line: 1, .. })));
}

#[test]
fn operators_reject_unknown_tokens() {
    let comma = token(TokenType::Comma, ",");
    assert!(matches!(binary_op(&comma, num(1.0), num(2.0)),
        Err(Error::RuntimeError { ref msg, .. }) if msg == "unknown binary operator"));
    let plus = token(TokenType::Plus, "+");
    assert!(matches!(unary_op(&plus, num(1.0)),
        Err(Error::RuntimeError { ref msg, .. }) if msg == "unknown unary operator"));
    let ident = token(TokenType::Identifier, "x");
    assert!(matches!(literal_value(&ident),
        Err(Error::RuntimeError { ref msg, .. }) if msg == "unknown literal"));
}

#[test]
fn bang_negates_truthiness_directly() {
    let bang = token(TokenType::Bang, "!");
    assert!(matches!(unary_op(&bang, Value::Nil), Ok(Value::Boolean(true))));
    assert!(matches!(unary_op(&bang, num(0.0)), Ok(Value::Boolean(false))));
    assert!(matches!(unary_op(&bang, Value::String(String::new())), Ok(Value::Boolean(false))));
}

#[test]
fn number_equality_is_ieee() {
    let eq = token(TokenType::EqualEqual, "==");
    assert!(matches!(binary_op(&eq, num(0.0), num(-0.0)), Ok(Value::Boolean(true))));
    assert!(matches!(binary_op(&eq, num(f64::NAN), num(f64::NAN)), Ok(Value::Boolean(false))));
    assert!(matches!(binary_op(&eq, num(2.0), Value::String("2".to_string())), Ok(Value::Boolean(false))));
}

#[test]
fn evaluate_works_on_expression_trees() {
    let mut interpreter = Interpreter::new();
    let one = Expr::Literal { value: token(TokenType::Number(1.0f64.to_bits()), "1") };
    let two = Expr::Literal { value: token(TokenType::Number(2.0f64.to_bits()), "2") };
    let sum = Expr::Binary {
        left: Box::new(one),
        operator: token(TokenType::Plus, "+"),
        right: Box::new(Expr::Grouping { expr: Box::new(two) }),
    };
    assert!(matches!(interpreter.evaluate(&sum), Ok(Value::Number(b)) if f64::from_bits(b) == 3.0));
    let missing = Expr::Variable { name: token(TokenType::Identifier, "missing") };
    assert!(matches!(interpreter.evaluate(&missing),
        Err(Error::RuntimeError { ref msg, .. }) if msg == "undefined variable missing"));
}

#[test]
fn scanning_succeeds_on_plain_text() {
    let tokens = scan("var a = (1 + 2.5) * 3; // done\nprint a >= 10 or !true;").unwrap();
    assert_eq!(tokens.len(), 20);
    assert!(matches!(tokens[19].token_type, TokenType::Eof));
}

fn parse_source(source: &str) -> Result<Vec<Stmt>, Error> {
    let tokens = scan(source)?;
    Parser::new(tokens).parse()
}

fn parse_message(source: &str) -> String {
    match parse_source(source) {
        Err(Error::ParseError { msg, .. }) => msg,
        other => panic!("expected a parse error, got {:?}", other),
    }
}

fn number_of(e: &Expr) -> f64 {
    match e {
        Expr::Literal { value } => match value.token_type {
            TokenType::Number(b) => f64::from_bits(b),
            _ => panic!("not a number"),
        },
        _ => panic!("not a literal"),
    }
}

#[test]
fn identifiers_continue_with_unicode_digits() {
    assert_eq!(output_of("var x\u{b2} = 4; print x\u{b2};"), vec!["4"]);
}

#[test]
fn malformed_programs_fail_to_parse() {
    for source in [")", "1 +;", "print 1", "{ print 1;", "var 1;", "fun (a) {}", "if (true print 1;"] {
        assert!(matches!(parse_source(source), Err(Error::ParseError { .. })), "{}", source);
    }
    assert_eq!(parse_message("+;"), "expect expression");
}

#[test]
fn assignment_parses_right_to_left() {
    let stmts = parse_source("a = b = 1;").unwrap();
    match &stmts[0] {
        Stmt::Expression { expr } => match &**expr {
            Expr::Assignment { name, value } => {
                assert_eq!(name.text, "a");
                assert!(matches!(&**value, Expr::Assignment { name, .. } if name.text == "b"));
            },
            other => panic!("{:?}", other),
        },
        other => panic!("{:?}", other),
    }
    assert_eq!(parse_message("1 = 2;"), "invalid assignment target");
    assert_eq!(parse_message("a + b = 1;"), "invalid assignment target");
}

#[test]
fn precedence_shapes_trees() {
    let stmts = parse_source("1 - 2 - 3; 1 + 2 * 3;").unwrap();
    match &stmts[0] {
        Stmt::Expression { expr } => match &**expr {
            Expr::Binary { left, right, .. } => {
                assert!(matches!(&**left, Expr::Binary { .. }));
                assert_eq!(number_of(right), 3.0);
            },
            other => panic!("{:?}", other),
        },
        other => panic!("{:?}", other),
    }
    match &stmts[1] {
        Stmt::Expression { expr } => match &**expr {
            Expr::Binary { left, operator, right } => {
                assert_eq!(number_of(left), 1.0);
                assert_eq!(operator.text, "+");
                assert!(matches!(&**right, Expr::Binary { operator, .. } if operator.text == "*"));
            },
            other => panic!("{:?}", other),
        },
        other => panic!("{:?}", other),
    }
}

#[test]
fn for_loops_desugar() {
    let stmts = parse_source("for (var i = 0; i < 3; i = i + 1) print i;").unwrap();
    match &stmts[0] {
        Stmt::Block { stmts } => {
            assert_eq!(stmts.len(), 2);
            assert!(matches!(&stmts[0], Stmt::VariableDeclaration { name, initializer: Some(_) } if name.text == "i"));
            match &stmts[1] {
                Stmt::While { body, .. } => match &**body {
                    Stmt::Block { stmts } => {
                        assert!(matches!(&stmts[0], Stmt::Print { .. }));
                        assert!(matches!(&stmts[1], Stmt::Expression { .. }));
                    },
                    other => panic!("{:?}", other),
                },
                other => panic!("{:?}", other),
            }
        },
        other => panic!("{:?}", other),
    }
    let stmts = parse_source("for (;;) print 1;").unwrap();
    match &stmts[0] {
        Stmt::While { condition, body } => {
            assert!(matches!(&**condition, Expr::Literal { value } if matches!(value.token_type, TokenType::True)));
            assert!(matches!(&**body, Stmt::Print { .. }));
        },
        other => panic!("{:?}", other),
    }
}

#[test]
fn functions_and_calls_parse() {
    let stmts = parse_source("fun f(a, b) { return a; } print f(1, 2);").unwrap();
    assert_eq!(stmts.len(), 2);
    match &stmts[0] {
        Stmt::FunctionDeclaration(d) => {
            assert_eq!(d.name.text, "f");
            assert_eq!(d.params.len(), 2);
            assert!(matches!(&d.body[0], Stmt::Return { value: Some(_), .. }));
        },
        other => panic!("{:?}", other),
    }
    match &stmts[1] {
        Stmt::Print { expr } => assert!(matches!(&**expr, Expr::Call { args, .. } if args.len() == 2)),
        other => panic!("{:?}", other),
    }
    assert_eq!(output_of("fun f(a, b) { return a; } print f(1, 2);"), vec!["1"]);
}
