use lox::error::{ParseError, ParseErrorKind};
use lox::expr::{Expression, Literal, AST};
use lox::statement::{Statement, SST};
use lox::text::{Fragment, NumberForm};
use lox::token::{Token, TokenType};
use lox::tokenizer::Tokenizer;

fn tokens_of(source: &str) -> Vec<Token> {
    let mut tokenizer = Tokenizer::new();
    assert_eq!(tokenizer.scan(source.to_string()), 0);
    tokenizer.get_tokens()
}

fn digits(bits: u64, form: NumberForm) -> String {
    let n = f64::from_bits(bits);
    match form {
        NumberForm::Whole => format!("{:.0}", n),
        NumberForm::PointedWhole => format!("{:.1}", n),
        NumberForm::Shortest => format!("{}", n),
        NumberForm::Exponent => format!("{:?}", n),
    }
}

fn render(fragments: &[Fragment]) -> String {
    let mut text = String::new();
    for fragment in fragments {
        match fragment {
            Fragment::Text(s) => text.push_str(s),
            Fragment::Number(bits, form) => text.push_str(&digits(*bits, *form)),
        }
    }
    text
}

fn parse_one(source: &str) -> Result<Expression, ParseError> {
    let mut ast = AST::new(tokens_of(source));
    ast.expression()
}

fn form(source: &str) -> String {
    match parse_one(source) {
        Ok(e) => render(&e.to_string()),
        Err(e) => panic!("{} does not parse: {}", source, e.message()),
    }
}

fn failure(source: &str) -> (ParseErrorKind, usize, String) {
    match parse_one(source) {
        Ok(e) => panic!("{} parses as {}", source, render(&e.to_string())),
        Err(e) => (e.kind, e.line, e.lexeme),
    }
}

fn program(source: &str) -> Result<Vec<String>, ParseError> {
    let mut sst = SST::new(AST::new(tokens_of(source)));
    sst.parse_tree()?;
    Ok(sst.export_stats().iter().map(describe).collect())
}

fn describe(statement: &Statement) -> String {
    match statement {
        Statement::PrintStatement(e) => format!("print {};", render(&e.to_string())),
        Statement::ExprStatement(e) => format!("{};", render(&e.to_string())),
        Statement::DeclStatement { name, value: Some(e) } => {
            format!("var {} = {};", name.lexeme, render(&e.to_string()))
        }
        Statement::DeclStatement { name, value: None } => format!("var {};", name.lexeme),
        Statement::BlockStatement(stats) => {
            let inner: Vec<String> = stats.iter().map(describe).collect();
            format!("{{ {} }}", inner.join(" "))
        }
    }
}

#[test]
fn literals() {
    assert_eq!(form("true"), "true");
    assert_eq!(form("false"), "false");
    assert_eq!(form("nil"), "nil");
    assert_eq!(form("42"), "42.0");
    assert_eq!(form("3.14"), "3.14");
    assert_eq!(form("\"hello\""), "hello");
    assert_eq!(form("foo"), "foo");
}

#[test]
fn number_literal_is_converted() {
    match parse_one("12.5") {
        Ok(Expression::Literal(Literal::Number(bits))) => assert_eq!(bits, 12.5f64.to_bits()),
        _ => panic!("not a number literal"),
    }
}

#[test]
fn string_literal_holds_its_content() {
    match parse_one("\"a b\"") {
        Ok(Expression::Literal(Literal::String(s))) => assert_eq!(s, "a b"),
        _ => panic!("not a string literal"),
    }
}

#[test]
fn grouping() {
    assert_eq!(form("(1)"), "(group 1.0)");
    assert_eq!(form("((\"a\"))"), "(group (group a))");
}

#[test]
fn unary_operators_nest_to_the_right() {
    assert_eq!(form("-1"), "(- 1.0)");
    assert_eq!(form("!true"), "(! true)");
    assert_eq!(form("!!true"), "(! (! true))");
    assert_eq!(form("-!-1"), "(- (! (- 1.0)))");
}

#[test]
fn binary_operators_nest_to_the_left() {
    assert_eq!(form("1 + 2 + 3"), "(+ (+ 1.0 2.0) 3.0)");
    assert_eq!(form("1 - 2 - 3"), "(- (- 1.0 2.0) 3.0)");
    assert_eq!(form("8 / 4 / 2"), "(/ (/ 8.0 4.0) 2.0)");
    assert_eq!(form("1 < 2 < 3"), "(< (< 1.0 2.0) 3.0)");
    assert_eq!(form("1 == 2 == 3"), "(== (== 1.0 2.0) 3.0)");
}

#[test]
fn precedence_ladder() {
    assert_eq!(form("1 + 2 * 3"), "(+ 1.0 (* 2.0 3.0))");
    assert_eq!(form("1 * 2 + 3"), "(+ (* 1.0 2.0) 3.0)");
    assert_eq!(form("1 + 2 < 3 + 4"), "(< (+ 1.0 2.0) (+ 3.0 4.0))");
    assert_eq!(form("1 < 2 == 3 > 4"), "(== (< 1.0 2.0) (> 3.0 4.0))");
    assert_eq!(form("-1 * -2"), "(* (- 1.0) (- 2.0))");
    assert_eq!(form("(1 + 2) * 3"), "(* (group (+ 1.0 2.0)) 3.0)");
    assert_eq!(form("1 <= 2 != 3 >= 4"), "(!= (<= 1.0 2.0) (>= 3.0 4.0))");
    assert_eq!(form("!a == b"), "(== (! a) b)");
}

#[test]
fn assignment_is_rewritten_from_a_variable() {
    match parse_one("a = 1 + 2") {
        Ok(Expression::Assignment { name, value }) => {
            assert_eq!(name.lexeme, "a");
            assert_eq!(name.token_type, TokenType::IDENTIFIER);
            assert_eq!(render(&value.to_string()), "(+ 1.0 2.0)");
        }
        _ => panic!("not an assignment"),
    }
}

#[test]
fn assignment_nests_to_the_right() {
    match parse_one("a = b = 3") {
        Ok(Expression::Assignment { name, value }) => {
            assert_eq!(name.lexeme, "a");
            match *value {
                Expression::Assignment { name, value } => {
                    assert_eq!(name.lexeme, "b");
                    assert_eq!(render(&value.to_string()), "3.0");
                }
                _ => panic!("right side is no assignment"),
            }
        }
        _ => panic!("not an assignment"),
    }
}

#[test]
fn assignment_prints_as_its_name() {
    assert_eq!(form("a = 1"), "a");
}

#[test]
fn invalid_assignment_target() {
    assert_eq!(
        failure("1 = 2"),
        (ParseErrorKind::InvalidAssignmentTarget, 1, "=".to_string())
    );
    assert_eq!(
        failure("a + b = 2"),
        (ParseErrorKind::InvalidAssignmentTarget, 1, "=".to_string())
    );
    assert_eq!(
        failure("(a) = 2"),
        (ParseErrorKind::InvalidAssignmentTarget, 1, "=".to_string())
    );
}

#[test]
fn expect_expression() {
    assert_eq!(failure(""), (ParseErrorKind::ExpectExpression, 1, "".to_string()));
    assert_eq!(failure("+"), (ParseErrorKind::ExpectExpression, 1, "+".to_string()));
    assert_eq!(failure("1 +"), (ParseErrorKind::ExpectExpression, 1, "".to_string()));
    assert_eq!(failure("1 *\n\n)"), (ParseErrorKind::ExpectExpression, 3, ")".to_string()));
    assert_eq!(failure("(1 2"), (ParseErrorKind::ExpectExpression, 1, "2".to_string()));
    assert_eq!(failure("(1"), (ParseErrorKind::ExpectExpression, 1, "".to_string()));
    assert_eq!(failure("print"), (ParseErrorKind::ExpectExpression, 1, "print".to_string()));
    assert_eq!(failure("a = ;"), (ParseErrorKind::ExpectExpression, 1, ";".to_string()));
}

#[test]
fn parser_stops_after_the_expression() {
    let mut ast = AST::new(tokens_of("1 + 2 3"));
    assert!(ast.expression().is_ok());
    assert!(!ast.is_at_end());
    assert_eq!(ast.peek().lexeme, "3");
    assert!(ast.check(TokenType::NUMBER));
    assert!(ast.match_type(&[TokenType::STRING, TokenType::NUMBER]));
    assert!(!ast.match_type(&[TokenType::STRING, TokenType::PLUS]));
    assert!(!ast.match_type(&[]));
    ast.advance();
    assert!(ast.is_at_end());
    assert!(!ast.check(TokenType::EOF));
}

#[test]
fn advance_stands_still_behind_the_last_token() {
    let mut ast = AST::new(tokens_of("1"));
    ast.advance();
    assert!(ast.is_at_end());
    assert_eq!(ast.peek().token_type, TokenType::EOF);
    ast.advance();
    assert!(ast.is_at_end());
    ast.advance();
    ast.advance();
    assert!(ast.is_at_end());
    assert!(!ast.check(TokenType::NUMBER));
    let mut empty = AST::new(vec![]);
    empty.advance();
    assert!(empty.is_at_end());
}

#[test]
fn consume_takes_the_expected_token_only() {
    let mut ast = AST::new(tokens_of("; x"));
    let taken = ast.consume(TokenType::SEMICOLON, ParseErrorKind::ExpectSemicolon);
    assert!(matches!(taken, Ok(t) if t.token_type == TokenType::SEMICOLON));
    let refused = ast.consume(TokenType::SEMICOLON, ParseErrorKind::ExpectSemicolon);
    match refused {
        Err(e) => {
            assert_eq!(e.kind, ParseErrorKind::ExpectSemicolon);
            assert_eq!(e.lexeme, "x");
            assert_eq!(e.line, 1);
        }
        Ok(_) => panic!("took an identifier for a semicolon"),
    }
    assert_eq!(ast.peek().lexeme, "x");
}

#[test]
fn parse_tree_collects_expressions() {
    let mut ast = AST::new(tokens_of("1 + 2 \"a\" (3)"));
    assert!(ast.parse_tree().is_ok());
    let forms: Vec<String> = ast.export_exprs().iter().map(|e| render(&e.to_string())).collect();
    assert_eq!(forms, vec!["(+ 1.0 2.0)", "a", "(group 3.0)"]);
}

#[test]
fn parse_tree_keeps_what_came_before_an_error() {
    let mut ast = AST::new(tokens_of("1 2 )"));
    let r = ast.parse_tree();
    assert!(matches!(r, Err(e) if e.kind == ParseErrorKind::ExpectExpression && e.lexeme == ")"));
    assert_eq!(ast.export_exprs().len(), 2);
    let mut ast = AST::new(tokens_of("1 2 +"));
    let r = ast.parse_tree();
    assert!(matches!(r, Err(e) if e.kind == ParseErrorKind::ExpectExpression && e.lexeme == ""));
    assert_eq!(ast.export_exprs().len(), 1);
}

#[test]
fn tokens_without_eof_are_parsed_to_their_end() {
    let tokens = vec![
        Token::new(TokenType::NUMBER, "1".to_string(), Some("1".to_string()), 1),
        Token::new(TokenType::PLUS, "+".to_string(), None, 1),
    ];
    let mut ast = AST::new(tokens);
    match ast.expression() {
        Err(e) => {
            assert_eq!(e.kind, ParseErrorKind::ExpectExpression);
            assert_eq!(e.line, 1);
            assert_eq!(e.lexeme, "");
        }
        Ok(_) => panic!("parsed an operand that is not there"),
    }
}

#[test]
fn number_token_without_a_literal_shape_is_zero() {
    for literal in [None, Some("abc".to_string()), Some("1e3".to_string())] {
        let tokens = vec![Token::new(TokenType::NUMBER, "?".to_string(), literal, 1)];
        let mut ast = AST::new(tokens);
        match ast.expression() {
            Ok(Expression::Literal(Literal::Number(bits))) => assert_eq!(bits, 0f64.to_bits()),
            _ => panic!("not a number literal"),
        }
    }
}

#[test]
fn statements() {
    assert_eq!(
        program("print 1 + 2; var a; var b = a; a = 3; { print a; { } }").unwrap(),
        vec![
            "print (+ 1.0 2.0);",
            "var a;",
            "var b = a;",
            "a;",
            "{ print a; {  } }",
        ]
    );
}

#[test]
fn block_takes_no_semicolon() {
    assert_eq!(program("{ var a = 1; } print 2;").unwrap(), vec!["{ var a = 1.0; }", "print 2.0;"]);
}

#[test]
fn statement_errors() {
    let kind = |source: &str| match program(source) {
        Err(e) => (e.kind, e.line, e.lexeme),
        Ok(stats) => panic!("{} parses as {:?}", source, stats),
    };
    assert_eq!(kind("print 1"), (ParseErrorKind::ExpectSemicolon, 1, "".to_string()));
    assert_eq!(kind("1 2;"), (ParseErrorKind::ExpectSemicolon, 1, "2".to_string()));
    assert_eq!(kind("var 1 = 2;"), (ParseErrorKind::ExpectVariableName, 1, "1".to_string()));
    assert_eq!(kind("var"), (ParseErrorKind::ExpectVariableName, 1, "".to_string()));
    assert_eq!(kind("var a = ;"), (ParseErrorKind::ExpectExpression, 1, ";".to_string()));
    assert_eq!(kind("var a 1;"), (ParseErrorKind::ExpectSemicolon, 1, "1".to_string()));
    assert_eq!(kind("{ print 1;"), (ParseErrorKind::ExpectRightBrace, 1, "".to_string()));
    assert_eq!(kind("{\n{\nprint 1;\n}"), (ParseErrorKind::ExpectRightBrace, 4, "".to_string()));
    assert_eq!(kind("}"), (ParseErrorKind::ExpectExpression, 1, "}".to_string()));
    assert_eq!(kind("print;"), (ParseErrorKind::ExpectExpression, 1, ";".to_string()));
    assert_eq!(kind("x = 1;\n1 = x;"), (ParseErrorKind::InvalidAssignmentTarget, 2, "=".to_string()));
}

#[test]
fn statements_before_an_error_stay_collected() {
    let mut sst = SST::new(AST::new(tokens_of("print 1; var a; print")));
    assert!(sst.parse_tree().is_err());
    assert_eq!(sst.export_stats().len(), 2);
}

#[test]
fn printing_form_of_reparsed_print_is_the_same_for_atoms() {
    for source in ["true", "false", "nil", "foo", "_x1", "1.5", "42.0", "0.25"] {
        let once = form(source);
        let twice = form(&once);
        assert_eq!(once, twice, "{source}");
    }
}

#[test]
fn printing_form_of_an_operation_does_not_reparse_to_itself() {
    let once = form("-1");
    assert_eq!(once, "(- 1.0)");
    assert_eq!(form(&once), "(group (- 1.0))");
}
