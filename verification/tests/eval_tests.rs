use monkey::ast::{Expression, Statement};
use monkey::eval::Evaluator;
use monkey::lexer::Lexer;
use monkey::objects::{Env, Object};
use monkey::parser::Parser;
use monkey::token::Token;

fn run(src: &str) -> Option<String> {
    let mut p = Parser::new(Box::new(Lexer::new(src.to_string())));
    let program = p.parse_program();
    let mut e = Evaluator::new(Env::new());
    e.checked_eval_program(program).map(|o| o.text())
}

#[test]
fn not_equal_program() {
    let src = String::from("
        let yes = 1 != 2;
        ");
    let mut p = Parser::new(Box::new(Lexer::new(src)));
    let program = p.parse_program();
    let mut e = Evaluator::new(Env::new());
    assert_eq!(e.eval_program(program).text(), "2");
}

#[test]
fn let_then_read() {
    assert_eq!(run("let x = 5; x"), Some("5".to_string()));
    assert_eq!(run("let x = 5; let x = true; x"), Some("true".to_string()));
    assert_eq!(run("let x = 5;"), Some("5".to_string()));
}

#[test]
fn missing_name() {
    assert_eq!(run("y"), Some("error: identifier not found".to_string()));
}

#[test]
fn operands_in_reverse() {
    assert_eq!(run("1 - 2"), Some("1".to_string()));
    assert_eq!(run("6 / 2"), Some("0".to_string()));
    assert_eq!(run("2 / 6"), Some("3".to_string()));
    assert_eq!(run("2 / 7"), Some("3".to_string()));
    assert_eq!(run("3 * 4 + 1"), Some("13".to_string()));
    assert_eq!(run("1 > 2"), Some("null".to_string()));
}

#[test]
fn faults_stop_evaluation() {
    assert_eq!(run("0 / 5"), None);
    assert_eq!(run("2147483647 + 1"), None);
    assert_eq!(run("let a = 7; 0 * 2147483647 * 3; a"), Some("7".to_string()));
    assert_eq!(run("let a = 7; 1 * 2147483647 * 3; a"), None);
}

#[test]
fn prefix_operators() {
    assert_eq!(run("!true"), Some("false".to_string()));
    assert_eq!(run("!false"), Some("true".to_string()));
    assert_eq!(run("!5"), Some("false".to_string()));
    assert_eq!(run("-5"), Some("error: invalid prefix operator: {token}".to_string()));
}

#[test]
fn errors_and_mismatches() {
    assert_eq!(run("true + 1"), Some("error: mismatched types: 1 and true".to_string()));
    assert_eq!(run("y + 1"), Some("error: identifier not found".to_string()));
    assert_eq!(run("1 + y"), Some("error: identifier not found".to_string()));
    assert_eq!(run("return 5;"), Some("null".to_string()));
    assert_eq!(run(""), Some("null".to_string()));
}

#[test]
fn evaluator_keeps_bindings_across_programs() {
    let mut e = Evaluator::new(Env::new());
    let first = vec![Statement::Let {
        token: Token::Let,
        ident: Expression::Ident("n".to_string()),
        exprs: Expression::Int(-12),
    }];
    assert_eq!(e.eval_program(first).text(), "-12");
    let second = vec![Statement::ExprsStatement { token: Token::Ident("n".to_string()), exprs: Expression::Ident("n".to_string()) }];
    assert_eq!(e.eval_program(second).text(), "-12");
}

#[test]
fn let_binds_the_text_of_its_name() {
    let mut e = Evaluator::new(Env::new());
    let program = vec![
        Statement::Let { token: Token::Let, ident: Expression::Int(3), exprs: Expression::Int(4) },
        Statement::ExprsStatement { token: Token::Int("3".to_string()), exprs: Expression::Ident("3".to_string()) },
    ];
    assert_eq!(e.eval_program(program).text(), "4");
}

#[test]
fn object_text() {
    assert_eq!(Object::Int(-42).text(), "-42");
    assert_eq!(Object::Int(i32::MIN).text(), "-2147483648");
    assert_eq!(Object::Int(0).text(), "0");
    assert_eq!(Object::Bool(true).text(), "true");
    assert_eq!(Object::Null.text(), "null");
    assert_eq!(Object::Error("boom".to_string()).text(), "error: boom");
    assert_eq!(Object::Error("x".to_string()).clone().text(), "error: x");
}

#[test]
fn env_get_after_set() {
    let mut env = Env::new();
    assert!(env.get("a".to_string()).is_none());
    env.set("a".to_string(), &Object::Int(1));
    env.set("b".to_string(), &Object::Bool(false));
    env.set("a".to_string(), &Object::Int(2));
    assert_eq!(env.get("a".to_string()).map(|o| o.text()), Some("2".to_string()));
    assert_eq!(env.get("b".to_string()).map(|o| o.text()), Some("false".to_string()));
    assert!(env.get("c".to_string()).is_none());
}

#[test]
fn expression_text() {
    assert_eq!(Expression::Ident("abc".to_string()).text(), "abc");
    assert_eq!(Expression::Int(-7).text(), "-7");
    assert_eq!(Expression::Boolean { token: Token::True, value: true }.text(), "true");
    assert_eq!(Expression::NoExprsn.text(), "");
}

#[test]
fn programs_in_turn_equal_joined() {
    let parse = |s: &str| Parser::new(Box::new(Lexer::new(s.to_string()))).parse_program();
    let mut joined = Evaluator::new(Env::new());
    let one = joined.eval_program(parse("let a = 3; let b = a * 4; b + a")).text();
    let mut split = Evaluator::new(Env::new());
    split.eval_program(parse("let a = 3;"));
    let two = split.eval_program(parse("let b = a * 4; b + a")).text();
    assert_eq!(one, "15");
    assert_eq!(one, two);
}
