use lox::error::{ParseError, ParseErrorKind, RuntimeError};
use lox::expr::Literal;
use lox::text::{chars_of, decimal, text_between, Fragment, NumberForm};
use lox::token::{Token, TokenType, RESERVED_WORDS};
use lox::tokenizer::{same_text, LexError, LexErrorKind, Tokenizer};

#[test]
fn runtime_messages() {
    assert_eq!(RuntimeError::OperandMustBeNumber.message(), "Operand must be a number.");
    assert_eq!(RuntimeError::OperandsMustBeNumbers.message(), "Operands must be numbers.");
    assert_eq!(
        RuntimeError::OperandsMustBeNumbersOrStrings.message(),
        "Operands must be two numbers or two strings."
    );
    assert_eq!(
        RuntimeError::UndefinedVariable("foo".to_string()).message(),
        "Undefined variable foo."
    );
    assert_eq!(RuntimeError::NoEnclosingScope.message(), "No enclosing scope.");
    assert_eq!(RuntimeError::EXIT_CODE, 70);
}

#[test]
fn lexical_messages() {
    let unexpected = LexError { line: 12, kind: LexErrorKind::UnexpectedCharacter('$') };
    assert_eq!(unexpected.message(), "[line 12] Error: Unexpected character: $");
    let unterminated = LexError { line: 1, kind: LexErrorKind::UnterminatedString };
    assert_eq!(unterminated.message(), "[line 1] Error: Unterminated string.");
    let wide = LexError { line: 3, kind: LexErrorKind::UnexpectedCharacter('é') };
    assert_eq!(wide.message(), "[line 3] Error: Unexpected character: é");
    assert_eq!(LexError::EXIT_CODE, 65);
}

#[test]
fn syntax_messages() {
    let at = |kind: ParseErrorKind| {
        ParseError { kind, line: 7, lexeme: "foo".to_string() }.message()
    };
    assert_eq!(at(ParseErrorKind::ExpectExpression), "[line 7] Error at 'foo': Expect expression.");
    assert_eq!(
        at(ParseErrorKind::InvalidAssignmentTarget),
        "Invalid assignment target."
    );
    assert_eq!(
        at(ParseErrorKind::ExpectVariableName),
        "[line 7] Error at 'foo': Expect variable name."
    );
    assert_eq!(
        at(ParseErrorKind::ExpectRightBrace),
        "[line 7] Error at 'foo': Expect '}' after block."
    );
    assert_eq!(at(ParseErrorKind::ExpectSemicolon), "[line 7] Error at 'foo': expected semicolon");
    assert_eq!(ParseErrorKind::ExpectExpression.sentence(), "Expect expression.");
    assert_eq!(ParseError::EXIT_CODE, 65);
}

#[test]
fn syntax_error_names_the_token_it_stands_at() {
    let tokens = vec![
        Token::new(TokenType::NUMBER, "1".to_string(), Some("1".to_string()), 4),
        Token::new(TokenType::EOF, String::new(), None, 9),
    ];
    let at_number = ParseError::at(&tokens, 0, ParseErrorKind::ExpectSemicolon);
    assert_eq!((at_number.line, at_number.lexeme.as_str()), (4, "1"));
    let at_eof = ParseError::at(&tokens, 1, ParseErrorKind::ExpectSemicolon);
    assert_eq!((at_eof.line, at_eof.lexeme.as_str()), (9, ""));
    let past_the_end = ParseError::at(&tokens, 2, ParseErrorKind::ExpectSemicolon);
    assert_eq!((past_the_end.line, past_the_end.lexeme.as_str()), (1, ""));
}

#[test]
fn decimal_digits() {
    assert_eq!(decimal(0), "0");
    assert_eq!(decimal(7), "7");
    assert_eq!(decimal(10), "10");
    assert_eq!(decimal(409), "409");
    assert_eq!(decimal(1234567890), "1234567890");
    assert_eq!(decimal(usize::MAX), usize::MAX.to_string());
}

#[test]
fn characters_and_texts() {
    assert_eq!(chars_of("héllo"), vec!['h', 'é', 'l', 'l', 'o']);
    assert_eq!(chars_of(""), Vec::<char>::new());
    let chars = chars_of("héllo wörld");
    assert_eq!(text_between(&chars, 0, 5), "héllo");
    assert_eq!(text_between(&chars, 6, 11), "wörld");
    assert_eq!(text_between(&chars, 3, 3), "");
    assert!(same_text("abc", "abc"));
    assert!(!same_text("abc", "abd"));
    assert!(!same_text("abc", "ab"));
    assert!(same_text("", ""));
}

#[test]
fn token_kinds_have_their_names() {
    assert_eq!(TokenType::LEFT_PAREN.name(), "LEFT_PAREN");
    assert_eq!(TokenType::BANG_EQUAL.name(), "BANG_EQUAL");
    assert_eq!(TokenType::GREATER_EQUAL.name(), "GREATER_EQUAL");
    assert_eq!(TokenType::IDENTIFIER.name(), "IDENTIFIER");
    assert_eq!(TokenType::WHILE.name(), "WHILE");
    assert_eq!(TokenType::EOF.name(), "EOF");
    for kind in [
        TokenType::LEFT_PAREN,
        TokenType::RIGHT_PAREN,
        TokenType::LEFT_BRACE,
        TokenType::RIGHT_BRACE,
        TokenType::COMMA,
        TokenType::DOT,
        TokenType::MINUS,
        TokenType::PLUS,
        TokenType::SEMICOLON,
        TokenType::SLASH,
        TokenType::STAR,
        TokenType::BANG,
        TokenType::BANG_EQUAL,
        TokenType::EQUAL,
        TokenType::EQUAL_EQUAL,
        TokenType::GREATER,
        TokenType::GREATER_EQUAL,
        TokenType::LESS,
        TokenType::LESS_EQUAL,
        TokenType::IDENTIFIER,
        TokenType::STRING,
        TokenType::NUMBER,
        TokenType::AND,
        TokenType::CLASS,
        TokenType::ELSE,
        TokenType::FALSE,
        TokenType::FUN,
        TokenType::FOR,
        TokenType::IF,
        TokenType::NIL,
        TokenType::OR,
        TokenType::PRINT,
        TokenType::RETURN,
        TokenType::SUPER,
        TokenType::THIS,
        TokenType::TRUE,
        TokenType::VAR,
        TokenType::WHILE,
        TokenType::EOF,
    ] {
        assert_eq!(kind.name(), format!("{kind:?}"));
    }
}

#[test]
fn token_lines() {
    let line = |token: Token| token.to_string();
    let plain = line(Token::new(TokenType::LEFT_PAREN, "(".to_string(), None, 1));
    assert!(matches!(&plain[..], [Fragment::Text(s)] if s == "LEFT_PAREN ( null"));
    let string = line(Token::new(
        TokenType::STRING,
        "\"a b\"".to_string(),
        Some("a b".to_string()),
        1,
    ));
    assert!(matches!(&string[..], [Fragment::Text(s)] if s == "STRING \"a b\" a b"));
    let number = line(Token::new(TokenType::NUMBER, "42".to_string(), Some("42".to_string()), 1));
    assert!(matches!(
        &number[..],
        [Fragment::Text(s), Fragment::Number(bits, NumberForm::PointedWhole)]
            if s == "NUMBER 42 " && *bits == 42f64.to_bits()
    ));
    let eof = line(Token::new(TokenType::EOF, String::new(), None, 1));
    assert!(matches!(&eof[..], [Fragment::Text(s)] if s == "EOF  null"));
}

#[test]
fn token_listing_has_one_line_for_each_token() {
    let mut tokenizer = Tokenizer::new();
    tokenizer.scan("a 1".to_string());
    let listing = tokenizer.print_tokens();
    assert_eq!(listing.len(), 7);
    assert!(matches!(&listing[0], Fragment::Text(s) if s == "IDENTIFIER a null"));
    assert!(matches!(&listing[1], Fragment::Text(s) if s == "\n"));
    assert!(matches!(&listing[2], Fragment::Text(s) if s == "NUMBER 1 "));
    assert!(matches!(
        &listing[3],
        Fragment::Number(bits, NumberForm::PointedWhole) if *bits == 1f64.to_bits()
    ));
    assert!(matches!(&listing[4], Fragment::Text(s) if s == "\n"));
    assert!(matches!(&listing[5], Fragment::Text(s) if s == "EOF  null"));
    assert!(matches!(&listing[6], Fragment::Text(s) if s == "\n"));
}

#[test]
fn values_are_printed_and_displayed() {
    assert!(matches!(Literal::Nil.print(), Fragment::Text(s) if s == "nil"));
    assert!(matches!(Literal::Bool(true).print(), Fragment::Text(s) if s == "true"));
    assert!(matches!(Literal::Bool(false).print(), Fragment::Text(s) if s == "false"));
    assert!(matches!(Literal::String("a b".to_string()).print(), Fragment::Text(s) if s == "a b"));
    let three = 3f64.to_bits();
    let half = 0.5f64.to_bits();
    assert!(matches!(
        Literal::Number(three).print(),
        Fragment::Number(bits, NumberForm::Whole) if bits == three
    ));
    assert!(matches!(
        Literal::Number(half).print(),
        Fragment::Number(bits, NumberForm::Shortest) if bits == half
    ));
    assert!(matches!(
        Literal::Number(three).display(),
        Fragment::Number(bits, NumberForm::Exponent) if bits == three
    ));
    assert!(matches!(
        Fragment::pointed(three),
        Fragment::Number(bits, NumberForm::PointedWhole) if bits == three
    ));
    assert!(matches!(
        Fragment::pointed(half),
        Fragment::Number(bits, NumberForm::Shortest) if bits == half
    ));
    assert!(matches!(Fragment::plain(three), Fragment::Number(_, NumberForm::Whole)));
    assert!(matches!(Literal::Nil.display(), Fragment::Text(s) if s == "nil"));
    assert!(matches!(Fragment::from_text("x"), Fragment::Text(s) if s == "x"));
    assert!(matches!(Fragment::newline(), Fragment::Text(s) if s == "\n"));
}

#[test]
fn reserved_words_are_the_keywords() {
    assert_eq!(RESERVED_WORDS.len(), 16);
    for word in RESERVED_WORDS {
        let kind = Tokenizer::get_reserverd_word_token_type(word);
        assert_ne!(kind, TokenType::IDENTIFIER);
        assert_eq!(kind.name(), word.to_uppercase());
    }
}
