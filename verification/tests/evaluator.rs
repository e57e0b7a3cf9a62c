use lox::environment::State;
use lox::error::RuntimeError;
use lox::expr::{
    apply_binary, apply_unary, eval_assignment, eval_binary, eval_group, eval_literal, eval_unary,
    eval_variable, Expression, Literal, AST,
};
use lox::token::{Token, TokenType};
use lox::tokenizer::Tokenizer;

fn number(n: f64) -> Literal {
    Literal::Number(n.to_bits())
}

fn text(s: &str) -> Literal {
    Literal::String(s.to_string())
}

fn same(a: &Literal, b: &Literal) -> bool {
    match (a, b) {
        (Literal::Nil, Literal::Nil) => true,
        (Literal::Bool(x), Literal::Bool(y)) => x == y,
        (Literal::Number(x), Literal::Number(y)) => x == y,
        (Literal::String(x), Literal::String(y)) => x == y,
        _ => false,
    }
}

fn parse(source: &str) -> Expression {
    let mut tokenizer = Tokenizer::new();
    assert_eq!(tokenizer.scan(source.to_string()), 0);
    let mut ast = AST::new(tokenizer.get_tokens());
    let e = ast.expression().expect("the source parses");
    assert!(ast.is_at_end());
    assert!(e.is_well_formed());
    e
}

fn eval_in(source: &str, env: &mut State) -> Result<Literal, RuntimeError> {
    parse(source).accept(env)
}

fn eval(source: &str) -> Result<Literal, RuntimeError> {
    eval_in(source, &mut State::new(None))
}

fn gives(source: &str, expected: Literal) {
    match eval(source) {
        Ok(v) => assert!(same(&v, &expected), "{source} gave {v:?}, not {expected:?}"),
        Err(e) => panic!("{source} failed: {e:?}"),
    }
}

fn binary(kind: TokenType, left: Literal, right: Literal) -> Result<Literal, RuntimeError> {
    apply_binary(kind, left, right)
}

#[test]
fn literals_evaluate_to_themselves() {
    gives("nil", Literal::Nil);
    gives("true", Literal::Bool(true));
    gives("false", Literal::Bool(false));
    gives("12.5", number(12.5));
    gives("\"hi\"", text("hi"));
    gives("(\"hi\")", text("hi"));
    assert!(same(&eval_literal(number(3.0)), &number(3.0)));
}

#[test]
fn arithmetic() {
    gives("1 + 2", number(3.0));
    gives("10 - 4", number(6.0));
    gives("6 * 7", number(42.0));
    gives("1 / 4", number(0.25));
    gives("1 + 2 * 3 - 4 / 2", number(5.0));
    gives("(1 + 2) * 3", number(9.0));
    gives("0.1 + 0.2", number(0.30000000000000004));
    gives("-3 + 1", number(-2.0));
    gives("--3", number(3.0));
}

#[test]
fn division_by_zero_is_no_error() {
    gives("1 / 0", number(f64::INFINITY));
    gives("-1 / 0", number(f64::NEG_INFINITY));
    match eval("0 / 0") {
        Ok(Literal::Number(bits)) => assert!(f64::from_bits(bits).is_nan()),
        other => panic!("0 / 0 gave {other:?}"),
    }
}

#[test]
fn string_concatenation() {
    gives("\"foo\" + \"bar\"", text("foobar"));
    gives("\"\" + \"\"", text(""));
    gives("\"a\" + \"b\" + \"c\"", text("abc"));
}

#[test]
fn comparisons() {
    gives("1 < 2", Literal::Bool(true));
    gives("2 < 1", Literal::Bool(false));
    gives("2 <= 2", Literal::Bool(true));
    gives("3 <= 2", Literal::Bool(false));
    gives("2 > 1", Literal::Bool(true));
    gives("1 > 1", Literal::Bool(false));
    gives("1 >= 1", Literal::Bool(true));
    gives("0 >= 1", Literal::Bool(false));
    gives("-1 < 0", Literal::Bool(true));
    gives("-2 < -1", Literal::Bool(true));
    gives("0 / 0 < 1", Literal::Bool(false));
    gives("0 / 0 >= 1", Literal::Bool(false));
}

#[test]
fn equality_within_and_across_types() {
    gives("nil == nil", Literal::Bool(true));
    gives("true == true", Literal::Bool(true));
    gives("true == false", Literal::Bool(false));
    gives("1 == 1", Literal::Bool(true));
    gives("1 == 2", Literal::Bool(false));
    gives("\"a\" == \"a\"", Literal::Bool(true));
    gives("\"a\" == \"b\"", Literal::Bool(false));
    gives("1 == \"1\"", Literal::Bool(false));
    gives("nil == false", Literal::Bool(false));
    gives("0 == false", Literal::Bool(false));
    gives("\"\" == nil", Literal::Bool(false));
    gives("1 != 1", Literal::Bool(false));
    gives("1 != 2", Literal::Bool(true));
    gives("1 != \"1\"", Literal::Bool(true));
    gives("nil != nil", Literal::Bool(false));
    gives("0 == -0", Literal::Bool(true));
}

#[test]
fn nan_is_not_equal_to_itself() {
    gives("0 / 0 == 0 / 0", Literal::Bool(false));
    gives("0 / 0 != 0 / 0", Literal::Bool(true));
    let nan = f64::NAN;
    assert!(matches!(
        binary(TokenType::EQUAL_EQUAL, number(nan), number(nan)),
        Ok(Literal::Bool(false))
    ));
}

#[test]
fn equality_is_reflexive_on_values_that_are_no_nan() {
    for v in [
        Literal::Nil,
        Literal::Bool(true),
        Literal::Bool(false),
        number(0.0),
        number(-0.0),
        number(1.5),
        number(f64::INFINITY),
        number(f64::NEG_INFINITY),
        text(""),
        text("a"),
    ] {
        assert!(v.equals(&v.clone()), "{v:?}");
        assert!(matches!(
            binary(TokenType::EQUAL_EQUAL, v.clone(), v.clone()),
            Ok(Literal::Bool(true))
        ));
        assert!(matches!(
            binary(TokenType::BANG_EQUAL, v.clone(), v.clone()),
            Ok(Literal::Bool(false))
        ));
    }
}

#[test]
fn truthiness() {
    for (v, truthy) in [
        (Literal::Nil, false),
        (Literal::Bool(false), false),
        (Literal::Bool(true), true),
        (number(0.0), true),
        (number(1.0), true),
        (number(f64::NAN), true),
        (text(""), true),
        (text("false"), true),
    ] {
        assert_eq!(v.to_bool(), truthy, "{v:?}");
        let once = apply_unary(TokenType::BANG, v.clone()).unwrap();
        assert!(same(&once, &Literal::Bool(!truthy)));
        let twice = apply_unary(TokenType::BANG, once).unwrap();
        assert!(same(&twice, &Literal::Bool(truthy)), "!!{v:?}");
    }
    gives("!nil", Literal::Bool(true));
    gives("!!nil", Literal::Bool(false));
    gives("!0", Literal::Bool(false));
    gives("!!0", Literal::Bool(true));
    gives("!\"\"", Literal::Bool(false));
    gives("!!\"\"", Literal::Bool(true));
}

#[test]
fn unary_minus_needs_a_number() {
    for source in ["-\"a\"", "-nil", "-true", "-(1 == 1)"] {
        assert!(matches!(eval(source), Err(RuntimeError::OperandMustBeNumber)), "{source}");
    }
    assert!(matches!(
        apply_unary(TokenType::MINUS, text("1")),
        Err(RuntimeError::OperandMustBeNumber)
    ));
}

#[test]
fn plus_needs_two_numbers_or_two_strings() {
    for source in ["1 + \"x\"", "\"x\" + 1", "nil + 1", "true + true", "nil + nil", "1 + nil"] {
        assert!(
            matches!(eval(source), Err(RuntimeError::OperandsMustBeNumbersOrStrings)),
            "{source}"
        );
    }
}

#[test]
fn other_operators_need_two_numbers() {
    for source in [
        "1 - \"x\"",
        "\"a\" - \"b\"",
        "\"a\" * 2",
        "nil / 2",
        "true < 2",
        "\"a\" < \"b\"",
        "1 <= nil",
        "\"1\" > 0",
        "false >= false",
    ] {
        assert!(matches!(eval(source), Err(RuntimeError::OperandsMustBeNumbers)), "{source}");
    }
}

#[test]
fn strings_are_not_coerced_to_numbers() {
    assert!(matches!(eval("\"1\" + 1"), Err(RuntimeError::OperandsMustBeNumbersOrStrings)));
    assert!(matches!(eval("\"3\" * \"4\""), Err(RuntimeError::OperandsMustBeNumbers)));
    assert!(matches!(eval("\"1\" < \"2\""), Err(RuntimeError::OperandsMustBeNumbers)));
    gives("\"1\" == 1", Literal::Bool(false));
}

#[test]
fn variables_are_read_from_the_environment() {
    let mut env = State::new(None);
    env.define("a".to_string(), number(2.0));
    env.define("b".to_string(), text("x"));
    assert!(matches!(eval_in("a * 3", &mut env), Ok(v) if same(&v, &number(6.0))));
    assert!(matches!(eval_in("b + b", &mut env), Ok(v) if same(&v, &text("xx"))));
    assert!(matches!(
        eval_in("c", &mut env),
        Err(RuntimeError::UndefinedVariable(name)) if name == "c"
    ));
}

#[test]
fn assignment_is_an_expression() {
    let mut env = State::new(None);
    env.define("a".to_string(), number(1.0));
    env.define("b".to_string(), number(1.0));
    assert!(matches!(eval_in("a = 5", &mut env), Ok(v) if same(&v, &number(5.0))));
    assert!(matches!(env.get("a".to_string()), Ok(v) if same(&v, &number(5.0))));
    assert!(matches!(eval_in("a = b = 7", &mut env), Ok(v) if same(&v, &number(7.0))));
    assert!(matches!(env.get("a".to_string()), Ok(v) if same(&v, &number(7.0))));
    assert!(matches!(env.get("b".to_string()), Ok(v) if same(&v, &number(7.0))));
    assert!(matches!(eval_in("(a = 2) + a", &mut env), Ok(v) if same(&v, &number(4.0))));
}

#[test]
fn assignment_to_an_undeclared_name_fails_and_declares_nothing() {
    let mut env = State::new(None);
    assert!(matches!(
        eval_in("x = 1", &mut env),
        Err(RuntimeError::UndefinedVariable(name)) if name == "x"
    ));
    assert!(matches!(env.get("x".to_string()), Err(RuntimeError::UndefinedVariable(_))));
}

#[test]
fn operands_are_evaluated_from_left_to_right() {
    let mut env = State::new(None);
    env.define("a".to_string(), number(1.0));
    assert!(matches!(eval_in("(a = 10) - a", &mut env), Ok(v) if same(&v, &number(0.0))));
    env.define("a".to_string(), number(1.0));
    assert!(matches!(eval_in("a - (a = 10)", &mut env), Ok(v) if same(&v, &number(-9.0))));
    // The left operand fails first, so the right one is never evaluated.
    env.define("a".to_string(), number(1.0));
    assert!(matches!(
        eval_in("missing + (a = 2)", &mut env),
        Err(RuntimeError::UndefinedVariable(name)) if name == "missing"
    ));
    assert!(matches!(env.get("a".to_string()), Ok(v) if same(&v, &number(1.0))));
    // What was assigned before an error stays assigned.
    assert!(matches!(
        eval_in("(a = 3) + missing", &mut env),
        Err(RuntimeError::UndefinedVariable(name)) if name == "missing"
    ));
    assert!(matches!(env.get("a".to_string()), Ok(v) if same(&v, &number(3.0))));
    // Both operands are evaluated before the operator rejects them.
    assert!(matches!(
        eval_in("\"s\" * (a = 4)", &mut env),
        Err(RuntimeError::OperandsMustBeNumbers)
    ));
    assert!(matches!(env.get("a".to_string()), Ok(v) if same(&v, &number(4.0))));
}

#[test]
fn eval_functions_by_hand() {
    let minus = Token::new(TokenType::MINUS, "-".to_string(), None, 1);
    let bang = Token::new(TokenType::BANG, "!".to_string(), None, 1);
    let plus = Token::new(TokenType::PLUS, "+".to_string(), None, 1);
    let name = Token::new(TokenType::IDENTIFIER, "v".to_string(), None, 1);
    let two = Expression::Literal(number(2.0));
    let three = Expression::Literal(number(3.0));
    let mut env = State::new(None);
    env.define("v".to_string(), number(1.0));
    assert!(matches!(eval_unary(&minus, &two, &mut env), Ok(v) if same(&v, &number(-2.0))));
    assert!(matches!(eval_unary(&bang, &two, &mut env), Ok(v) if same(&v, &Literal::Bool(false))));
    assert!(matches!(eval_binary(&plus, &two, &three, &mut env), Ok(v) if same(&v, &number(5.0))));
    assert!(matches!(eval_group(&three, &mut env), Ok(v) if same(&v, &number(3.0))));
    assert!(matches!(eval_variable(&name, &env), Ok(v) if same(&v, &number(1.0))));
    assert!(matches!(
        eval_assignment("v".to_string(), &three, &mut env),
        Ok(v) if same(&v, &number(3.0))
    ));
    assert!(matches!(eval_variable(&name, &env), Ok(v) if same(&v, &number(3.0))));
    assert!(matches!(
        eval_assignment("w".to_string(), &three, &mut env),
        Err(RuntimeError::UndefinedVariable(n)) if n == "w"
    ));
}

#[test]
fn well_formedness_is_checked() {
    let plus = Token::new(TokenType::PLUS, "+".to_string(), None, 1);
    let comma = Token::new(TokenType::COMMA, ",".to_string(), None, 1);
    let one = || Box::new(Expression::Literal(number(1.0)));
    assert!(!Expression::Unary { operator: plus.clone(), expr: one() }.is_well_formed());
    assert!(Expression::Binary { operator: plus, left_expr: one(), right_expr: one() }
        .is_well_formed());
    assert!(!Expression::Binary { operator: comma.clone(), left_expr: one(), right_expr: one() }
        .is_well_formed());
    assert!(!Expression::Grouping {
        expr: Box::new(Expression::Unary { operator: comma, expr: one() })
    }
    .is_well_formed());
}
