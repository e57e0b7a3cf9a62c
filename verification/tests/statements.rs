use lox::environment::State;
use lox::error::RuntimeError;
use lox::expr::{Expression, Literal};
use lox::statement::{
    eval_block_stat, eval_decl_stat, eval_expr_stat, eval_print_stat, run_statements, Statement,
};
use lox::text::Fragment;
use lox::token::{Token, TokenType};

fn number(n: f64) -> Expression {
    Expression::Literal(Literal::Number(n.to_bits()))
}

fn text(s: &str) -> Expression {
    Expression::Literal(Literal::String(s.to_string()))
}

fn name(s: &str) -> Token {
    Token::new(TokenType::IDENTIFIER, s.to_string(), None, 1)
}

fn variable(s: &str) -> Expression {
    Expression::Variable { variable: name(s) }
}

fn declare(s: &str, value: Expression) -> Statement {
    Statement::DeclStatement { name: name(s), value: Some(value) }
}

fn minus(e: Expression) -> Expression {
    Expression::Unary {
        operator: Token::new(TokenType::MINUS, "-".to_string(), None, 1),
        expr: Box::new(e),
    }
}

fn lines(out: &[Fragment]) -> Vec<String> {
    let mut lines = vec![];
    let mut line = String::new();
    for fragment in out {
        match fragment {
            Fragment::Text(s) if s == "\n" => lines.push(std::mem::take(&mut line)),
            Fragment::Text(s) => line.push_str(s),
            Fragment::Number(bits, _) => line.push_str(&format!("{}", f64::from_bits(*bits))),
        }
    }
    assert!(line.is_empty());
    lines
}

#[test]
fn print_appends_a_line() {
    let mut env = State::new(None);
    let mut out = vec![Fragment::from_text("before"), Fragment::newline()];
    assert!(eval_print_stat(&number(1.5), &mut env, &mut out).is_ok());
    assert!(Statement::PrintStatement(text("s")).accept(&mut env, &mut out).is_ok());
    assert_eq!(lines(&out), vec!["before", "1.5", "s"]);
}

#[test]
fn print_of_a_failing_expression_prints_nothing() {
    let mut env = State::new(None);
    let mut out = vec![];
    let r = eval_print_stat(&minus(text("a")), &mut env, &mut out);
    assert!(matches!(r, Err(RuntimeError::OperandMustBeNumber)));
    assert!(out.is_empty());
}

#[test]
fn declaration_binds_in_the_innermost_scope() {
    let mut env = State::new(None);
    assert!(eval_decl_stat("a".to_string(), &Some(number(1.0)), &mut env).is_ok());
    assert!(eval_decl_stat("b".to_string(), &None, &mut env).is_ok());
    assert!(matches!(env.get("a".to_string()), Ok(Literal::Number(n)) if n == 1f64.to_bits()));
    assert!(matches!(env.get("b".to_string()), Ok(Literal::Nil)));
    let failing = eval_decl_stat("c".to_string(), &Some(variable("missing")), &mut env);
    assert!(matches!(failing, Err(RuntimeError::UndefinedVariable(n)) if n == "missing"));
    assert!(env.get("c".to_string()).is_err());
}

#[test]
fn expression_statement_discards_its_value() {
    let mut env = State::new(None);
    assert!(eval_expr_stat(&number(1.0), &mut env).is_ok());
    assert!(matches!(
        eval_expr_stat(&variable("a"), &mut env),
        Err(RuntimeError::UndefinedVariable(n)) if n == "a"
    ));
}

#[test]
fn block_releases_its_scope() {
    let mut env = State::new(None);
    let mut out = vec![];
    env.define("a".to_string(), Literal::String("outer".to_string()));
    let block = vec![declare("a", text("inner")), Statement::PrintStatement(variable("a"))];
    assert!(eval_block_stat(&block, &mut env, &mut out).is_ok());
    assert!(matches!(env.get("a".to_string()), Ok(Literal::String(s)) if s == "outer"));
    assert_eq!(lines(&out), vec!["inner"]);
    assert!(env.get_parent().is_err());
}

#[test]
fn block_releases_its_scope_on_errors_too() {
    let mut env = State::new(None);
    let mut out = vec![];
    let inner = Statement::BlockStatement(vec![
        declare("b", number(2.0)),
        Statement::PrintStatement(variable("b")),
        Statement::ExprStatement(minus(text("x"))),
        Statement::PrintStatement(number(3.0)),
    ]);
    let outer = Statement::BlockStatement(vec![declare("a", number(1.0)), inner]);
    let r = outer.accept(&mut env, &mut out);
    assert!(matches!(r, Err(RuntimeError::OperandMustBeNumber)));
    assert_eq!(lines(&out), vec!["2"]);
    assert!(env.get("a".to_string()).is_err());
    assert!(env.get("b".to_string()).is_err());
    // Only the global scope is open again.
    assert!(env.get_parent().is_err());
}

#[test]
fn statements_run_in_order_up_to_the_first_error() {
    let mut env = State::new(None);
    let mut out = vec![];
    let program = vec![
        declare("a", number(1.0)),
        Statement::PrintStatement(variable("a")),
        Statement::PrintStatement(variable("b")),
        Statement::PrintStatement(number(2.0)),
    ];
    let r = run_statements(&program, &mut env, &mut out);
    assert!(matches!(r, Err(RuntimeError::UndefinedVariable(n)) if n == "b"));
    assert_eq!(lines(&out), vec!["1"]);
}

#[test]
fn shadowing_program_prints_the_outer_value() {
    let mut env = State::new(None);
    let mut out = vec![];
    let program = vec![
        declare("x", text("A")),
        Statement::BlockStatement(vec![declare("x", text("B"))]),
        Statement::PrintStatement(variable("x")),
    ];
    assert!(run_statements(&program, &mut env, &mut out).is_ok());
    assert_eq!(lines(&out), vec!["A"]);
}

#[test]
fn statements_are_copied_in_depth() {
    let block = Statement::BlockStatement(vec![
        declare("a", number(1.0)),
        Statement::BlockStatement(vec![Statement::PrintStatement(variable("a"))]),
    ]);
    let copy = block.clone();
    let mut env = State::new(None);
    let mut out = vec![];
    assert!(copy.accept(&mut env, &mut out).is_ok());
    assert_eq!(lines(&out), vec!["1"]);
}

#[test]
fn statement_well_formedness_is_checked() {
    let comma = Token::new(TokenType::COMMA, ",".to_string(), None, 1);
    let bad = || Expression::Unary { operator: comma.clone(), expr: Box::new(number(1.0)) };
    assert!(Statement::PrintStatement(number(1.0)).is_well_formed());
    assert!(!Statement::PrintStatement(bad()).is_well_formed());
    assert!(!Statement::ExprStatement(bad()).is_well_formed());
    assert!(Statement::DeclStatement { name: name("a"), value: None }.is_well_formed());
    assert!(!declare("a", bad()).is_well_formed());
    assert!(Statement::BlockStatement(vec![]).is_well_formed());
    assert!(Statement::BlockStatement(vec![declare("a", number(1.0))]).is_well_formed());
    assert!(!Statement::BlockStatement(vec![
        declare("a", number(1.0)),
        Statement::BlockStatement(vec![Statement::PrintStatement(bad())]),
    ])
    .is_well_formed());
}
