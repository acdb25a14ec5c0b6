use sfl::config::Config;
use sfl::driver::{complete_phase, front_end};
use sfl::language::ast::Ast;
use sfl::language::token::{Position, Token, TokenKind};
use sfl::language::types::{FreeVar, TType, TypeMap};
use sfl::message::Message;
use sfl::phase::interpreter::{
    arithmetic, Environment, Interpreter, RuntimeError, Value,
};
use sfl::phase::ast_builder::AstBuilder;
use sfl::phase::lexer::Lexer;
use sfl::phase::parser::{Grammar, Parser};
use sfl::phase::type_checker::TypeChecker;
use sfl::phase::{Phase, PhaseResult};

fn read(source: &str) -> (Ast, Vec<Message>) {
    front_end(&String::from("./main.sfl"), &String::from(source))
}

fn type_of(source: &str) -> Result<String, Vec<Message>> {
    let (ast, _) = read(source);
    let mut checker = TypeChecker::new(&String::from("./main.sfl"));
    match checker.infer(&ast) {
        Ok(t) => Ok(t.text()),
        Err(()) => Err(checker.errors),
    }
}

fn eval(source: &str) -> Result<Value, RuntimeError> {
    let (ast, _) = read(source);
    Interpreter::new().interpret(&ast, &Environment::new(), 200)
}

fn eval_text(source: &str) -> String {
    match eval(source) {
        Ok(v) => v.text(),
        Err(e) => format!("{:?}", e),
    }
}

fn token(kind: TokenKind) -> Token {
    Token {
        source_path: String::from("./main.sfl"),
        kind,
        position: Position { line: 0, column: 0, begin: 0, end: 1 },
    }
}

#[test]
fn one_plus_two() {
    let (_, errors) = read("1 + 2");
    assert!(errors.is_empty());
    assert_eq!(type_of("1 + 2").ok(), Some(String::from("int")));
    assert_eq!(eval_text("1 + 2"), "3");
}

#[test]
fn the_identity_is_polymorphic() {
    assert_eq!(
        type_of("let id = \\x -> x in id").ok(),
        Some(String::from("\u{2200}t1 t1 -> t1"))
    );
    assert!(matches!(eval("let id = \\x -> x in id"), Ok(Value::Func(_, _, _))));
    assert_eq!(eval_text("let id = \\x -> x in id"), "func");
}

#[test]
fn an_abstraction_applied() {
    assert_eq!(type_of("(\\x -> x + 1) 41").ok(), Some(String::from("int")));
    assert_eq!(eval_text("(\\x -> x + 1) 41"), "42");
}

#[test]
fn the_constant_function() {
    let source = "let k = \\x -> \\y -> x in k 7 9";
    assert_eq!(type_of(source).ok(), Some(String::from("int")));
    assert_eq!(eval_text(source), "7");
}

#[test]
fn self_application_has_an_infinite_type() {
    let errors = type_of("\\x -> x x").expect_err("no type");
    assert_eq!(errors.len(), 1);
    assert_eq!(errors[0].content.message, "infinite type detected");
    assert_eq!(errors[0].position, Position { line: 0, column: 8, begin: 8, end: 9 });
}

#[test]
fn an_unknown_name_is_reported_where_it_stands() {
    let errors = type_of("foo").expect_err("no type");
    assert_eq!(errors.len(), 1);
    assert_eq!(errors[0].content.message, "'foo' is not defined here");
    assert_eq!(errors[0].content.indicator_message, None);
    assert_eq!(errors[0].position.line + 1, 1);
    assert_eq!(errors[0].position.column, 0);
    assert_eq!(errors[0].position, Position { line: 0, column: 0, begin: 0, end: 3 });
    assert_eq!(errors[0].source_path, "./main.sfl");
}

#[test]
fn a_missing_operand_recovers_and_has_no_type() {
    let (ast, errors) = read("1 +");
    assert_eq!(errors.len(), 1);
    assert_eq!(errors[0].content.message, "expected expression");
    assert_eq!(ast.pretty_print(), "BinaryOp\n  Literal '1'\n  '+'\n  Error\n");
    let config = Config::default();
    let input = vec![(String::from("./main.sfl"), ast.clone())];
    let mut checker = <TypeChecker as Phase<_, _>>::new();
    match checker.run(&config, &input) {
        PhaseResult::Failure(errors) => assert!(errors.is_empty()),
        _ => panic!("an expression with an error node has no type"),
    }
    assert!(matches!(eval("1 +"), Err(RuntimeError::IllFormed)));
}

#[test]
fn let_generalizes_and_lambda_does_not() {
    let with_let = "let id = \\x -> x in (\\a -> \\b -> a) (id 1) (id true)";
    assert_eq!(type_of(with_let).ok(), Some(String::from("int")));
    assert_eq!(eval_text(with_let), "1");
    let with_lambda = "(\\id -> (\\a -> \\b -> a) (id 1) (id true)) (\\x -> x)";
    let errors = type_of(with_lambda).expect_err("no type");
    assert_eq!(errors.len(), 1);
    assert_eq!(errors[0].content.message, "expected int, found bool");
}

#[test]
fn more_types() {
    assert_eq!(type_of("true").ok(), Some(String::from("bool")));
    assert_eq!(type_of("\\x -> x").ok(), Some(String::from("\u{2200}t0 t0 -> t0")));
    assert_eq!(type_of("\\x -> x + 1").ok(), Some(String::from("int -> int")));
    assert_eq!(
        type_of("\\f -> \\x -> f x").ok(),
        Some(String::from("\u{2200}t1 \u{2200}t2 t1 -> t2 -> t1 -> t2"))
    );
    assert_eq!(type_of("(1)").ok(), Some(String::from("int")));
    let errors = type_of("1 + true").expect_err("no type");
    assert_eq!(errors[0].content.message, "expected int, found bool");
    assert_eq!(errors[0].position, Position { line: 0, column: 4, begin: 4, end: 8 });
    let errors = type_of("1 2").expect_err("no type");
    assert_eq!(errors[0].content.message, "expected int, found int -> t0");
    assert!(type_of("if true then 1 else 2").is_err());
}

#[test]
fn fresh_variables_can_run_out() {
    let (ast, _) = read("\\x -> x");
    let mut checker = TypeChecker::new(&String::from("./main.sfl"));
    checker.variable_counter = u64::MAX;
    assert!(checker.w(&TypeMap::new(), &ast).is_err());
    assert_eq!(checker.errors.len(), 1);
    assert_eq!(checker.errors[0].content.message, "too many type variables");
    let (ast, _) = read("1 + 2");
    let mut checker = TypeChecker::new(&String::from("./main.sfl"));
    checker.variable_counter = u64::MAX;
    assert!(checker.w(&TypeMap::new(), &ast).is_err());
    assert_eq!(checker.errors[0].content.message, "too many type variables");
}

#[test]
fn w_gives_the_substitution_and_the_type() {
    let (ast, _) = read("f 1");
    let mut ctx = TypeMap::new();
    ctx.insert(String::from("f"), TType::Variable(String::from("a")));
    let mut checker = TypeChecker::new(&String::from("./main.sfl"));
    let (s, t) = checker.w(&ctx, &ast).expect("has a type");
    assert_eq!(t.text(), "t0");
    assert_eq!(s.apply(&TType::Variable(String::from("a"))).text(), "int -> t0");
    assert_eq!(checker.variable_counter, 1);
}

#[test]
fn type_checker_phase() {
    let config = Config::default();
    let good = (String::from("./a.sfl"), read("1 + 2").0);
    let bad = (String::from("./b.sfl"), read("1 + true").0);
    let worse = (String::from("./c.sfl"), read("foo").0);
    let mut checker = <TypeChecker as Phase<_, _>>::new();
    match checker.run(&config, &vec![good.clone()]) {
        PhaseResult::Success(out) => {
            assert_eq!(out.len(), 1);
            assert_eq!(out[0].0, "./a.sfl");
            assert_eq!(out[0].1.text(), "int");
        }
        _ => panic!("expected success"),
    }
    match checker.run(&config, &vec![bad, good, worse]) {
        PhaseResult::Failure(errors) => {
            assert_eq!(errors.len(), 2);
            assert_eq!(errors[0].content.message, "expected int, found bool");
            assert_eq!(errors[0].source_path, "./b.sfl");
            assert_eq!(errors[1].content.message, "'foo' is not defined here");
        }
        _ => panic!("expected failure"),
    }
}

#[test]
fn arithmetic_on_values() {
    assert_eq!(eval_text("10 - 3"), "7");
    assert_eq!(eval_text("3 - 10"), "-7");
    assert_eq!(eval_text("1 + 2 - 3 + 4"), "4");
    assert_eq!(eval_text("0 - 9223372036854775807 - 1"), "-9223372036854775808");
    assert_eq!(eval_text("true"), "true");
    assert_eq!(eval_text("false"), "false");
    assert_eq!(eval_text("9223372036854775807"), "9223372036854775807");
    let sum = arithmetic(&TokenKind::Plus, &Value::Number(40), &Value::Number(2));
    assert!(matches!(sum, Ok(Value::Number(42))));
    let difference = arithmetic(&TokenKind::Minus, &Value::Number(40), &Value::Number(2));
    assert!(matches!(difference, Ok(Value::Number(38))));
}

#[test]
fn every_runtime_error() {
    assert!(matches!(eval("1 +"), Err(RuntimeError::IllFormed)));
    assert!(matches!(eval("foo"), Err(RuntimeError::UnboundName)));
    assert!(matches!(eval("1 + true"), Err(RuntimeError::NotANumber)));
    assert!(matches!(eval("true - 1"), Err(RuntimeError::NotANumber)));
    assert!(matches!(eval("1 2"), Err(RuntimeError::NotAFunction)));
    assert!(matches!(eval("9223372036854775807 + 1"), Err(RuntimeError::Overflow)));
    assert!(matches!(eval("0 - 9223372036854775807 - 2"), Err(RuntimeError::Overflow)));
    assert!(matches!(eval("9223372036854775808"), Err(RuntimeError::Overflow)));
    let literal = Ast::Literal(token(TokenKind::Comma));
    let interpreter = Interpreter::new();
    let env = Environment::new();
    assert!(matches!(interpreter.interpret(&literal, &env, 10), Err(RuntimeError::UnhandledLiteral)));
    let one = Ast::Literal(token(TokenKind::LiteralInt(1)));
    let operator = Ast::BinaryOp(token(TokenKind::Comma), Box::new(one.clone()), Box::new(one));
    assert!(matches!(
        interpreter.interpret(&operator, &env, 10),
        Err(RuntimeError::UnhandledOperator)
    ));
    let omega = "(\\x -> x x) (\\x -> x x)";
    assert!(matches!(eval(omega), Err(RuntimeError::OutOfFuel)));
}

#[test]
fn fuel_bounds_the_nesting_of_calls() {
    let (ast, _) = read("(\\x -> (\\y -> y) x) 1");
    let interpreter = Interpreter::new();
    let env = Environment::new();
    assert!(matches!(interpreter.interpret(&ast, &env, 0), Err(RuntimeError::OutOfFuel)));
    assert!(matches!(interpreter.interpret(&ast, &env, 1), Err(RuntimeError::OutOfFuel)));
    assert!(matches!(interpreter.interpret(&ast, &env, 2), Ok(Value::Number(1))));
}

#[test]
fn functions_keep_their_environment() {
    assert_eq!(eval_text("let x = 1 in let f = \\y -> x + y in let x = 100 in f 10"), "11");
    assert_eq!(eval_text("let f = \\x -> \\y -> x - y in let g = f 10 in g 3"), "7");
    assert_eq!(eval_text("(\\x -> let x = x + 1 in x) 1"), "2");
}

#[test]
fn environment_holds_the_last_value_of_a_name() {
    let mut env = Environment::new();
    assert!(env.get("x").is_none());
    env.insert(String::from("x"), Value::Number(1));
    env.insert(String::from("y"), Value::Bool(true));
    env.insert(String::from("x"), Value::Number(2));
    assert!(matches!(env.get("x"), Some(Value::Number(2))));
    assert!(matches!(env.get("y"), Some(Value::Bool(true))));
    let copy = env.clone();
    assert!(matches!(copy.get("x"), Some(Value::Number(2))));
    assert_eq!(Value::Number(-5).text(), "-5");
    assert_eq!(Value::Number(i64::MIN).text(), "-9223372036854775808");
}

#[test]
fn interpreter_phase() {
    let config = Config::default();
    let mut interpreter = <Interpreter as Phase<_, _>>::new();
    assert_eq!(interpreter.fuel, 10000);
    let input = vec![
        (String::from("./other.sfl"), read("1").0),
        (String::from("./main.sfl"), read("40 + 2").0),
    ];
    match interpreter.run(&config, &input) {
        PhaseResult::Success(v) => assert_eq!(v.text(), "42"),
        _ => panic!("expected success"),
    }
    let input = vec![(String::from("./main.sfl"), read("1 2").0)];
    match interpreter.run(&config, &input) {
        PhaseResult::Failure(errors) => {
            assert_eq!(errors.len(), 1);
            assert_eq!(errors[0].content.message, "cannot apply what is not a function");
            assert_eq!(errors[0].source_path, "./main.sfl");
        }
        _ => panic!("expected failure"),
    }
    let input = vec![(String::from("./other.sfl"), read("1").0)];
    match interpreter.run(&config, &input) {
        PhaseResult::Failure(errors) => {
            assert_eq!(errors.len(), 1);
            assert_eq!(errors[0].content.message, "no './main.sfl' among the sources");
        }
        _ => panic!("expected failure"),
    }
    assert_eq!(RuntimeError::Overflow.text(), "number out of range");
    assert_eq!(RuntimeError::OutOfFuel.text(), "calls are nested too deep");
    assert_eq!(RuntimeError::UnboundName.text(), "unknown name");
    assert_eq!(RuntimeError::NotANumber.text(), "an operand is not a number");
    assert_eq!(RuntimeError::IllFormed.text(), "the program is not well formed");
    assert_eq!(RuntimeError::UnhandledLiteral.text(), "unhandled literal");
    assert_eq!(RuntimeError::UnhandledOperator.text(), "unhandled binary operator");
}

#[test]
fn the_front_end_is_a_function_of_the_source() {
    for source in ["1 + 2", "let id = \\x -> x in id", "1 +", ") $ (", ""] {
        let (a, ea) = read(source);
        let (b, eb) = read(source);
        assert_eq!(a, b);
        assert_eq!(ea, eb);
    }
    let (_, errors) = read("1 $ +");
    assert_eq!(errors.len(), 3);
    assert_eq!(errors[0].content.message, "Unexpected character '$'");
    assert_eq!(errors[1].content.message, "expected the end of the input");
    assert_eq!(errors[2].content.message, "expected the end of the input");
}

#[test]
fn the_pipeline_goes_on_after_a_soft_error_if_resilient() {
    let resilient = Config::default();
    assert!(resilient.resilient);
    assert!(!resilient.display_errors);
    let strict = Config { resilient: false, display_errors: false };
    let error = || Message::try_from(&token(TokenKind::Error(
        sfl::phase::lexer::LexerError::UnexpectedToken('$'),
    )))
    .expect("an error token");
    let (out, shown) = complete_phase(&resilient, PhaseResult::Success(1));
    assert_eq!((out, shown.len()), (Some(1), 0));
    let (out, shown) = complete_phase(&resilient, PhaseResult::SoftErr(2, vec![error()]));
    assert_eq!((out, shown.len()), (Some(2), 1));
    let (out, shown) = complete_phase(&strict, PhaseResult::SoftErr(3, vec![error()]));
    assert_eq!((out, shown.len()), (None, 1));
    let (out, shown) = complete_phase::<i32>(&resilient, PhaseResult::Failure(vec![error(), error()]));
    assert_eq!((out, shown.len()), (None, 2));
    let (out, shown) = complete_phase(&strict, PhaseResult::Success(4));
    assert_eq!((out, shown.len()), (Some(4), 0));
}

#[test]
fn the_type_of_an_expression_is_closed_and_found_again() {
    for source in [
        "\\x -> x",
        "\\f -> \\x -> f x",
        "let k = \\x -> \\y -> x in k",
        "1 + 2",
        "let id = \\x -> x in id id",
    ] {
        let (ast, _) = read(source);
        let mut first = TypeChecker::new(&String::from("./main.sfl"));
        let mut second = TypeChecker::new(&String::from("./main.sfl"));
        let a = first.infer(&ast).expect("has a type");
        let b = second.infer(&ast).expect("has a type");
        assert_eq!(a, b);
        assert!(a.free_variables().is_empty());
    }
    // Other fresh variables give the same type under other names.
    let (ast, _) = read("\\x -> x");
    let mut later = TypeChecker::new(&String::from("./main.sfl"));
    later.variable_counter = 5;
    assert_eq!(later.infer(&ast).expect("has a type").text(), "\u{2200}t5 t5 -> t5");
}

#[test]
fn a_phase_is_made_without_any_state() {
    let lexer = <Lexer as Phase<_, _>>::new();
    assert!(lexer.is_ok);
    assert_eq!(
        (lexer.begin, lexer.end, lexer.line, lexer.column, lexer.start_column),
        (0, 0, 0, 0, 0)
    );
    assert!(lexer.source_path.is_empty() && lexer.characters.is_empty());
    assert!(lexer.errors.is_empty());
    let parser = <Parser as Phase<_, _>>::new();
    assert_eq!(parser.grammar, Grammar::Expression);
    assert_eq!(parser.pos, 0);
    assert!(parser.source_path.is_empty() && parser.tokens.is_empty());
    assert!(parser.events.is_empty() && parser.errors.is_empty());
    let checker = <TypeChecker as Phase<_, _>>::new();
    assert_eq!(checker.variable_counter, 0);
    assert!(checker.source_path.is_empty() && checker.errors.is_empty());
    let interpreter = <Interpreter as Phase<_, _>>::new();
    assert_eq!(interpreter.fuel, 10000);
    assert!(interpreter.errors.is_empty());
    let _builder: AstBuilder = <AstBuilder as Phase<_, _>>::new();
}
