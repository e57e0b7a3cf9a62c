use lox::token::{Token, TokenType};
use lox::tokenizer::{LexError, LexErrorKind, Tokenizer};

fn scan(source: &str) -> (Vec<Token>, Vec<LexError>, i32) {
    let mut tokenizer = Tokenizer::new();
    let status = tokenizer.scan(source.to_string());
    let tokens = tokenizer.get_tokens();
    let errors = tokenizer.get_errors();
    (tokens, errors, status)
}

fn kinds(tokens: &[Token]) -> Vec<TokenType> {
    tokens.iter().map(|t| t.token_type).collect()
}

#[test]
fn empty_source_is_just_eof() {
    let (tokens, errors, status) = scan("");
    assert_eq!(kinds(&tokens), vec![TokenType::EOF]);
    assert_eq!(tokens[0].lexeme, "");
    assert_eq!(tokens[0].literal, None);
    assert_eq!(tokens[0].line, 1);
    assert!(errors.is_empty());
    assert_eq!(status, 0);
}

#[test]
fn punctuation_and_operators() {
    let (tokens, errors, status) = scan("(){},.;+-*/ ! != = == < <= > >=");
    assert_eq!(
        kinds(&tokens),
        vec![
            TokenType::LEFT_PAREN,
            TokenType::RIGHT_PAREN,
            TokenType::LEFT_BRACE,
            TokenType::RIGHT_BRACE,
            TokenType::COMMA,
            TokenType::DOT,
            TokenType::SEMICOLON,
            TokenType::PLUS,
            TokenType::MINUS,
            TokenType::STAR,
            TokenType::SLASH,
            TokenType::BANG,
            TokenType::BANG_EQUAL,
            TokenType::EQUAL,
            TokenType::EQUAL_EQUAL,
            TokenType::LESS,
            TokenType::LESS_EQUAL,
            TokenType::GREATER,
            TokenType::GREATER_EQUAL,
            TokenType::EOF,
        ]
    );
    assert_eq!(tokens[12].lexeme, "!=");
    assert_eq!(tokens[14].lexeme, "==");
    assert!(errors.is_empty());
    assert_eq!(status, 0);
}

#[test]
fn number_with_trailing_dot_leaves_the_dot() {
    let (tokens, _, status) = scan("123.");
    assert_eq!(kinds(&tokens), vec![TokenType::NUMBER, TokenType::DOT, TokenType::EOF]);
    assert_eq!(tokens[0].lexeme, "123");
    assert_eq!(tokens[0].literal.as_deref(), Some("123"));
    assert_eq!(status, 0);
}

#[test]
fn number_with_fraction() {
    let (tokens, _, _) = scan("3.14.15");
    assert_eq!(
        kinds(&tokens),
        vec![TokenType::NUMBER, TokenType::DOT, TokenType::NUMBER, TokenType::EOF]
    );
    assert_eq!(tokens[0].lexeme, "3.14");
    assert_eq!(tokens[0].literal.as_deref(), Some("3.14"));
    assert_eq!(tokens[2].lexeme, "15");
}

#[test]
fn string_literal_keeps_quotes_in_lexeme() {
    let (tokens, errors, status) = scan("\"foo bar\"");
    assert_eq!(kinds(&tokens), vec![TokenType::STRING, TokenType::EOF]);
    assert_eq!(tokens[0].lexeme, "\"foo bar\"");
    assert_eq!(tokens[0].literal.as_deref(), Some("foo bar"));
    assert!(errors.is_empty());
    assert_eq!(status, 0);
}

#[test]
fn unterminated_string_is_reported_on_its_opening_line() {
    let (tokens, errors, status) = scan("\n\"abc\ndef");
    assert_eq!(kinds(&tokens), vec![TokenType::EOF]);
    assert_eq!(errors, vec![LexError { line: 2, kind: LexErrorKind::UnterminatedString }]);
    assert_eq!(status, 65);
    assert_eq!(tokens[0].line, 3);
}

#[test]
fn unexpected_characters_do_not_stop_the_scan() {
    let (tokens, errors, status) = scan(",.$(#\n@");
    assert_eq!(
        kinds(&tokens),
        vec![TokenType::COMMA, TokenType::DOT, TokenType::LEFT_PAREN, TokenType::EOF]
    );
    assert_eq!(
        errors,
        vec![
            LexError { line: 1, kind: LexErrorKind::UnexpectedCharacter('$') },
            LexError { line: 1, kind: LexErrorKind::UnexpectedCharacter('#') },
            LexError { line: 2, kind: LexErrorKind::UnexpectedCharacter('@') },
        ]
    );
    assert_eq!(status, 65);
}

#[test]
fn keywords_and_identifiers() {
    let (tokens, _, _) = scan(
        "and class else false for fun if nil or print return super this true var while foo _bar andy",
    );
    assert_eq!(
        kinds(&tokens),
        vec![
            TokenType::AND,
            TokenType::CLASS,
            TokenType::ELSE,
            TokenType::FALSE,
            TokenType::FOR,
            TokenType::FUN,
            TokenType::IF,
            TokenType::NIL,
            TokenType::OR,
            TokenType::PRINT,
            TokenType::RETURN,
            TokenType::SUPER,
            TokenType::THIS,
            TokenType::TRUE,
            TokenType::VAR,
            TokenType::WHILE,
            TokenType::IDENTIFIER,
            TokenType::IDENTIFIER,
            TokenType::IDENTIFIER,
            TokenType::EOF,
        ]
    );
    assert_eq!(tokens[18].lexeme, "andy");
    assert_eq!(tokens[18].literal, None);
}

#[test]
fn comments_run_to_the_end_of_the_line() {
    let (tokens, errors, _) = scan("1 // two $ three\n4 / 5 // six");
    assert_eq!(
        kinds(&tokens),
        vec![
            TokenType::NUMBER,
            TokenType::NUMBER,
            TokenType::SLASH,
            TokenType::NUMBER,
            TokenType::EOF
        ]
    );
    assert!(errors.is_empty());
    assert_eq!(tokens[0].line, 1);
    assert_eq!(tokens[1].line, 2);
    assert_eq!(tokens[4].line, 2);
}

#[test]
fn lines_are_counted_from_one() {
    let (tokens, _, _) = scan("a\nb\r\n\n c \"x\ny\" d");
    let lines: Vec<usize> = tokens.iter().map(|t| t.line).collect();
    assert_eq!(lines, vec![1, 2, 4, 4, 5, 5]);
}

#[test]
fn whitespace_is_skipped() {
    let (tokens, errors, status) = scan(" \t\r\0 ");
    assert_eq!(kinds(&tokens), vec![TokenType::EOF]);
    assert!(errors.is_empty());
    assert_eq!(status, 0);
}

#[test]
fn every_stream_ends_with_eof_even_after_errors() {
    for source in ["", "#", "\"open", "1 + #", "// only a comment", "var x = \"a\";"] {
        let (tokens, _, _) = scan(source);
        assert_eq!(tokens.last().map(|t| t.token_type), Some(TokenType::EOF));
        let before_last = &tokens[..tokens.len() - 1];
        assert!(before_last.iter().all(|t| t.token_type != TokenType::EOF));
    }
}

#[test]
fn scanning_twice_appends() {
    let mut tokenizer = Tokenizer::new();
    assert_eq!(tokenizer.scan("1".to_string()), 0);
    assert_eq!(tokenizer.scan("#".to_string()), 65);
    let tokens = tokenizer.get_tokens();
    assert_eq!(kinds(&tokens), vec![TokenType::NUMBER, TokenType::EOF, TokenType::EOF]);
    assert_eq!(tokenizer.get_errors().len(), 1);
}

#[test]
fn non_ascii_text_is_scanned_by_code_point() {
    let (tokens, errors, status) = scan("\"héllo\" é x");
    assert_eq!(kinds(&tokens), vec![TokenType::STRING, TokenType::IDENTIFIER, TokenType::EOF]);
    assert_eq!(tokens[0].literal.as_deref(), Some("héllo"));
    assert_eq!(errors, vec![LexError { line: 1, kind: LexErrorKind::UnexpectedCharacter('é') }]);
    assert_eq!(status, 65);
}

#[test]
fn reserved_word_lookup() {
    assert_eq!(Tokenizer::get_reserverd_word_token_type("while"), TokenType::WHILE);
    assert_eq!(Tokenizer::get_reserverd_word_token_type("While"), TokenType::IDENTIFIER);
    assert_eq!(Tokenizer::get_reserverd_word_token_type(""), TokenType::IDENTIFIER);
    assert!(Tokenizer::is_alpha('_'));
    assert!(!Tokenizer::is_alpha('1'));
    assert!(Tokenizer::is_digit('7'));
    assert!(!Tokenizer::is_digit('٣'));
    assert!(Tokenizer::is_alpha_numberic('z'));
    assert!(!Tokenizer::is_alpha_numberic('-'));
}
