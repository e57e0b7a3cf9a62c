//! The scanner: source text to tokens, with the lexical errors it met.

use vstd::prelude::*;
use crate::token::{Token, TokenType, TokenView, token_views, token_line};
use crate::text::{
    Fragment, FragmentView, fragment_views, decimal, decimal_text, push_char, chars_of,
    text_between,
};

verus! {

/// A lexical error and the line it was met on.
#[derive(Debug, PartialEq, Eq, Clone, Copy, Structural)]
pub struct LexError {
    pub line: usize,
    pub kind: LexErrorKind,
}

/// What was wrong with the text.
#[derive(Debug, PartialEq, Eq, Clone, Copy, Structural)]
pub enum LexErrorKind {
    /// A character that starts no token.
    UnexpectedCharacter(char),
    /// A string literal whose closing quote is missing.
    UnterminatedString,
}

/// The line that reports a lexical error.
pub open spec fn lex_message(e: LexError) -> Seq<char> {
    let head = "[line "@ + decimal_text(e.line as nat) + "] Error: "@;
    match e.kind {
        LexErrorKind::UnexpectedCharacter(c) => head + "Unexpected character: "@ + seq![c],
        LexErrorKind::UnterminatedString => head + "Unterminated string."@,
    }
}

impl LexError {
    /// The exit code of a scan that met a lexical error.
    pub const EXIT_CODE: i32 = 65;

    /// The line that reports this error.
    pub fn message(&self) -> (text: String)
        ensures
            text@ == lex_message(*self),
    {
        let mut text = String::from_str("[line ");
        text.append(decimal(self.line).as_str());
        text.append("] Error: ");
        match self.kind {
            LexErrorKind::UnexpectedCharacter(c) => {
                text.append("Unexpected character: ");
                push_char(&mut text, c);
                assert(text@ =~= lex_message(*self));
            },
            LexErrorKind::UnterminatedString => {
                text.append("Unterminated string.");
            },
        }
        text
    }
}

/// The listing of a sequence of tokens: the line of each token, in order,
/// each ended by a line break.
pub open spec fn token_lines(tokens: Seq<TokenView>) -> Seq<FragmentView>
    decreases tokens.len(),
{
    if tokens.len() == 0 {
        Seq::empty()
    } else {
        token_lines(tokens.drop_last()) + token_line(tokens.last()) + seq![
            crate::text::end_of_line(),
        ]
    }
}

/// The classes of characters that a run can be made of.
#[derive(Debug, PartialEq, Eq, Clone, Copy, Structural)]
pub enum CharClass {
    Digit,
    AlphaNumeric,
    NotNewline,
    NotQuote,
}

/// A decimal digit.
pub open spec fn is_digit_char(c: char) -> bool {
    '0' <= c && c <= '9'
}

/// A letter of the Latin alphabet, or `_`.
pub open spec fn is_alpha_char(c: char) -> bool {
    ('a' <= c && c <= 'z') || ('A' <= c && c <= 'Z') || c == '_'
}

/// Whether `c` is of the class.
pub open spec fn in_class(class: CharClass, c: char) -> bool {
    match class {
        CharClass::Digit => is_digit_char(c),
        CharClass::AlphaNumeric => is_alpha_char(c) || is_digit_char(c),
        CharClass::NotNewline => c != '\n',
        CharClass::NotQuote => c != '"',
    }
}

/// Where the maximal run of `class` characters that starts at `i` ends: the
/// first position at or after `i` that holds no character of the class.
pub open spec fn run_end(s: Seq<char>, i: int, class: CharClass) -> int
    decreases s.len() - i,
{
    if 0 <= i < s.len() && in_class(class, s[i]) {
        run_end(s, i + 1, class)
    } else {
        i
    }
}

/// The number of line breaks in `s[from..to]`.
pub open spec fn newlines_between(s: Seq<char>, from: int, to: int) -> int
    decreases to - from,
{
    if 0 <= from < to <= s.len() {
        newlines_between(s, from, to - 1) + if s[to - 1] == '\n' {
            1int
        } else {
            0int
        }
    } else {
        0
    }
}

/// The kind of an identifier-shaped word: a keyword's kind for the sixteen
/// reserved words, `IDENTIFIER` for every other word.
pub open spec fn word_kind(word: Seq<char>) -> TokenType {
    if word == "and"@ {
        TokenType::AND
    } else if word == "class"@ {
        TokenType::CLASS
    } else if word == "else"@ {
        TokenType::ELSE
    } else if word == "false"@ {
        TokenType::FALSE
    } else if word == "for"@ {
        TokenType::FOR
    } else if word == "fun"@ {
        TokenType::FUN
    } else if word == "if"@ {
        TokenType::IF
    } else if word == "nil"@ {
        TokenType::NIL
    } else if word == "or"@ {
        TokenType::OR
    } else if word == "print"@ {
        TokenType::PRINT
    } else if word == "return"@ {
        TokenType::RETURN
    } else if word == "super"@ {
        TokenType::SUPER
    } else if word == "this"@ {
        TokenType::THIS
    } else if word == "true"@ {
        TokenType::TRUE
    } else if word == "var"@ {
        TokenType::VAR
    } else if word == "while"@ {
        TokenType::WHILE
    } else {
        TokenType::IDENTIFIER
    }
}

/// What the scanner does at one position: where it goes on, on which line,
/// and the token or the error it leaves behind, if any.
pub ghost struct ScanStep {
    pub next: int,
    pub line: usize,
    pub token: Option<TokenView>,
    pub error: Option<LexError>,
}

/// A token without payload whose lexeme is `s[from..to]`.
pub open spec fn plain_token(kind: TokenType, s: Seq<char>, from: int, to: int, line: usize)
    -> TokenView {
    TokenView { token_type: kind, lexeme: s.subrange(from, to), literal: None, line }
}

/// A step that leaves the token `kind` with lexeme `s[i..to]`.
pub open spec fn emit(kind: TokenType, s: Seq<char>, i: int, to: int, line: usize) -> ScanStep {
    ScanStep { next: to, line, token: Some(plain_token(kind, s, i, to, line)), error: None }
}

/// A step over `s[i..to]` that leaves nothing behind.
pub open spec fn skip_to(to: int, line: usize) -> ScanStep {
    ScanStep { next: to, line, token: None, error: None }
}

/// The step for one of `! = < >` at `i`: the two-character kind when `=`
/// follows, the one-character kind otherwise.
pub open spec fn emit_operator(
    single: TokenType,
    with_equal: TokenType,
    s: Seq<char>,
    i: int,
    line: usize,
) -> ScanStep {
    if i + 1 < s.len() && s[i + 1] == '=' {
        emit(with_equal, s, i, i + 2, line)
    } else {
        emit(single, s, i, i + 1, line)
    }
}

/// The kind of a character that is a token by itself.
pub open spec fn punctuation_kind(c: char) -> Option<TokenType> {
    if c == '(' {
        Some(TokenType::LEFT_PAREN)
    } else if c == ')' {
        Some(TokenType::RIGHT_PAREN)
    } else if c == '{' {
        Some(TokenType::LEFT_BRACE)
    } else if c == '}' {
        Some(TokenType::RIGHT_BRACE)
    } else if c == ',' {
        Some(TokenType::COMMA)
    } else if c == '.' {
        Some(TokenType::DOT)
    } else if c == ';' {
        Some(TokenType::SEMICOLON)
    } else if c == '+' {
        Some(TokenType::PLUS)
    } else if c == '-' {
        Some(TokenType::MINUS)
    } else if c == '*' {
        Some(TokenType::STAR)
    } else {
        None
    }
}

/// Where the number literal that starts at `i` ends: after the digits, and
/// after a fraction if a dot and at least one digit follow them.
pub open spec fn number_end(s: Seq<char>, i: int) -> int {
    let whole = run_end(s, i, CharClass::Digit);
    if whole + 1 < s.len() && s[whole] == '.' && is_digit_char(s[whole + 1]) {
        run_end(s, whole + 1, CharClass::Digit)
    } else {
        whole
    }
}

/// The step the scanner takes at position `i` of `s`, on line `line`.
pub open spec fn scan_step(s: Seq<char>, i: int, line: usize) -> ScanStep
    recommends
        0 <= i < s.len(),
{
    let c = s[i];
    if punctuation_kind(c) is Some {
        emit(punctuation_kind(c)->0, s, i, i + 1, line)
    } else if c == '!' {
        emit_operator(TokenType::BANG, TokenType::BANG_EQUAL, s, i, line)
    } else if c == '=' {
        emit_operator(TokenType::EQUAL, TokenType::EQUAL_EQUAL, s, i, line)
    } else if c == '<' {
        emit_operator(TokenType::LESS, TokenType::LESS_EQUAL, s, i, line)
    } else if c == '>' {
        emit_operator(TokenType::GREATER, TokenType::GREATER_EQUAL, s, i, line)
    } else if c == '/' {
        if i + 1 < s.len() && s[i + 1] == '/' {
            skip_to(run_end(s, i, CharClass::NotNewline), line)
        } else {
            emit(TokenType::SLASH, s, i, i + 1, line)
        }
    } else if c == '"' {
        let close = run_end(s, i + 1, CharClass::NotQuote);
        let last_line = (line + newlines_between(s, i + 1, close)) as usize;
        if close < s.len() {
            ScanStep {
                next: close + 1,
                line: last_line,
                token: Some(
                    TokenView {
                        token_type: TokenType::STRING,
                        lexeme: s.subrange(i, close + 1),
                        literal: Some(s.subrange(i + 1, close)),
                        line,
                    },
                ),
                error: None,
            }
        } else {
            ScanStep {
                next: close,
                line: last_line,
                token: None,
                error: Some(LexError { line, kind: LexErrorKind::UnterminatedString }),
            }
        }
    } else if c == ' ' || c == '\t' || c == '\r' || c == '\0' {
        skip_to(i + 1, line)
    } else if c == '\n' {
        skip_to(i + 1, (line + 1) as usize)
    } else if is_digit_char(c) {
        let end = number_end(s, i);
        ScanStep {
            next: end,
            line,
            token: Some(
                TokenView {
                    token_type: TokenType::NUMBER,
                    lexeme: s.subrange(i, end),
                    literal: Some(s.subrange(i, end)),
                    line,
                },
            ),
            error: None,
        }
    } else if is_alpha_char(c) {
        let end = run_end(s, i, CharClass::AlphaNumeric);
        emit(word_kind(s.subrange(i, end)), s, i, end, line)
    } else {
        ScanStep {
            next: i + 1,
            line,
            token: None,
            error: Some(LexError { line, kind: LexErrorKind::UnexpectedCharacter(c) }),
        }
    }
}

/// The token that closes every stream.
pub open spec fn eof_token(line: usize) -> TokenView {
    TokenView { token_type: TokenType::EOF, lexeme: Seq::empty(), literal: None, line }
}

/// The tokens of `s[i..]`, scanned from line `line`, closed by `EOF`: the
/// token of the step at `i`, if it leaves one, then the tokens from where the
/// step leads. (Every step leads forward. The definition says so to be well
/// founded.)
pub open spec fn tokens_from(s: Seq<char>, i: int, line: usize) -> Seq<TokenView>
    decreases s.len() - i,
{
    if 0 <= i < s.len() {
        let step = scan_step(s, i, line);
        if i < step.next <= s.len() {
            let rest = tokens_from(s, step.next, step.line);
            match step.token {
                Some(t) => seq![t] + rest,
                None => rest,
            }
        } else {
            seq![eof_token(line)]
        }
    } else {
        seq![eof_token(line)]
    }
}

/// The lexical errors of `s[i..]`, scanned from line `line`, in order: the
/// error of the step at `i`, if it leaves one, then the errors from where the
/// step leads.
pub open spec fn errors_from(s: Seq<char>, i: int, line: usize) -> Seq<LexError>
    decreases s.len() - i,
{
    if 0 <= i < s.len() {
        let step = scan_step(s, i, line);
        if i < step.next <= s.len() {
            let rest = errors_from(s, step.next, step.line);
            match step.error {
                Some(e) => seq![e] + rest,
                None => rest,
            }
        } else {
            Seq::empty()
        }
    } else {
        Seq::empty()
    }
}

/// The token stream of a whole source text.
pub open spec fn scanned_tokens(s: Seq<char>) -> Seq<TokenView> {
    tokens_from(s, 0, 1)
}

/// The lexical errors of a whole source text.
pub open spec fn scanned_errors(s: Seq<char>) -> Seq<LexError> {
    errors_from(s, 0, 1)
}

/// The exit code of a scan that met the errors `errors`.
pub open spec fn scan_status(errors: Seq<LexError>) -> i32 {
    if errors.len() == 0 {
        0
    } else {
        65
    }
}

/// A run never ends before it starts nor after the text, every character in
/// it is of the class, and the character that follows it is not.
pub proof fn lemma_run_end(s: Seq<char>, i: int, class: CharClass)
    requires
        0 <= i <= s.len(),
    ensures
        i <= run_end(s, i, class) <= s.len(),
        forall|j: int| i <= j < run_end(s, i, class) ==> in_class(class, #[trigger] s[j]),
        run_end(s, i, class) < s.len() ==> !in_class(class, s[run_end(s, i, class)]),
    decreases s.len() - i,
{
    if i < s.len() && in_class(class, s[i]) {
        lemma_run_end(s, i + 1, class);
    }
}

/// There are no more line breaks in a stretch of text than characters.
pub proof fn lemma_newlines_bound(s: Seq<char>, from: int, to: int)
    ensures
        0 <= newlines_between(s, from, to),
        0 <= from <= to ==> newlines_between(s, from, to) <= to - from,
    decreases to - from,
{
    if 0 <= from < to <= s.len() {
        lemma_newlines_bound(s, from, to - 1);
    }
}

/// Every step moves forward, stays inside the text, and keeps the line
/// number within one of the position.
pub proof fn lemma_scan_step_advances(s: Seq<char>, i: int, line: usize)
    requires
        0 <= i < s.len(),
        line <= i + 1,
        s.len() < usize::MAX,
    ensures
        i < scan_step(s, i, line).next <= s.len(),
        line <= scan_step(s, i, line).line <= scan_step(s, i, line).next + 1,
{
    lemma_run_end(s, i, CharClass::NotNewline);
    lemma_run_end(s, i, CharClass::AlphaNumeric);
    lemma_run_end(s, i, CharClass::Digit);
    lemma_run_end(s, i + 1, CharClass::NotQuote);
    let close = run_end(s, i + 1, CharClass::NotQuote);
    lemma_newlines_bound(s, i + 1, close);
    let whole = run_end(s, i, CharClass::Digit);
    if whole + 1 < s.len() {
        lemma_run_end(s, whole + 1, CharClass::Digit);
    }
}

/// The stream of every source text ends with `EOF`, whatever errors were met.
pub proof fn lemma_stream_ends_with_eof(s: Seq<char>, i: int, line: usize)
    ensures
        tokens_from(s, i, line).len() >= 1,
        tokens_from(s, i, line).last().token_type == TokenType::EOF,
    decreases s.len() - i,
{
    if 0 <= i < s.len() {
        let step = scan_step(s, i, line);
        if i < step.next <= s.len() {
            lemma_stream_ends_with_eof(s, step.next, step.line);
        }
    }
}

fn is_punctuation(c: char) -> (kind: Option<TokenType>)
    ensures
        kind == punctuation_kind(c),
{
    if c == '(' {
        Some(TokenType::LEFT_PAREN)
    } else if c == ')' {
        Some(TokenType::RIGHT_PAREN)
    } else if c == '{' {
        Some(TokenType::LEFT_BRACE)
    } else if c == '}' {
        Some(TokenType::RIGHT_BRACE)
    } else if c == ',' {
        Some(TokenType::COMMA)
    } else if c == '.' {
        Some(TokenType::DOT)
    } else if c == ';' {
        Some(TokenType::SEMICOLON)
    } else if c == '+' {
        Some(TokenType::PLUS)
    } else if c == '-' {
        Some(TokenType::MINUS)
    } else if c == '*' {
        Some(TokenType::STAR)
    } else {
        None
    }
}

/// Whether two texts hold the same characters.
pub fn same_text(a: &str, b: &str) -> (same: bool)
    ensures
        same == (a@ == b@),
{
    let n = a.unicode_len();
    if b.unicode_len() != n {
        return false;
    }
    let mut i: usize = 0;
    while i < n
        invariant
            i <= n,
            n == a@.len(),
            n == b@.len(),
            forall|j: int| 0 <= j < i ==> a@[j] == b@[j],
        decreases n - i,
    {
        if a.get_char(i) != b.get_char(i) {
            return false;
        }
        i += 1;
    }
    assert(a@ =~= b@);
    true
}

/// The scanner. It collects the tokens of each text it scans, and the
/// lexical errors it met in them.
pub struct Tokenizer {
    tokens: Vec<Token>,
    errors: Vec<LexError>,
}

impl Tokenizer {
    /// The tokens collected so far.
    pub closed spec fn tokens_view(&self) -> Seq<TokenView> {
        token_views(self.tokens@)
    }

    /// The lexical errors met so far.
    pub closed spec fn errors_view(&self) -> Seq<LexError> {
        self.errors@
    }

    /// A scanner that has collected nothing yet.
    pub fn new() -> (t: Tokenizer)
        ensures
            t.tokens_view() == Seq::<TokenView>::empty(),
            t.errors_view() == Seq::<LexError>::empty(),
    {
        let t = Tokenizer { tokens: Vec::new(), errors: Vec::new() };
        assert(t.tokens_view() =~= Seq::<TokenView>::empty());
        t
    }

    /// Whether `c` is a decimal digit.
    pub fn is_digit(c: char) -> (r: bool)
        ensures
            r == is_digit_char(c),
    {
        '0' <= c && c <= '9'
    }

    /// Whether `c` is a letter of the Latin alphabet or `_`.
    pub fn is_alpha(c: char) -> (r: bool)
        ensures
            r == is_alpha_char(c),
    {
        if c >= 'a' && c <= 'z' {
            return true;
        }
        if c >= 'A' && c <= 'Z' {
            return true;
        }
        if c == '_' {
            return true;
        }
        return false;
    }

    /// Whether `c` can stand in an identifier.
    pub fn is_alpha_numberic(c: char) -> (r: bool)
        ensures
            r == (is_alpha_char(c) || is_digit_char(c)),
    {
        return Self::is_alpha(c) || Self::is_digit(c);
    }

    /// The kind of a word: its keyword, or `IDENTIFIER`.
    pub fn get_reserverd_word_token_type(word: &str) -> (kind: TokenType)
        ensures
            kind == word_kind(word@),
    {
        if same_text(word, "and") {
            TokenType::AND
        } else if same_text(word, "class") {
            TokenType::CLASS
        } else if same_text(word, "else") {
            TokenType::ELSE
        } else if same_text(word, "false") {
            TokenType::FALSE
        } else if same_text(word, "for") {
            TokenType::FOR
        } else if same_text(word, "fun") {
            TokenType::FUN
        } else if same_text(word, "if") {
            TokenType::IF
        } else if same_text(word, "nil") {
            TokenType::NIL
        } else if same_text(word, "or") {
            TokenType::OR
        } else if same_text(word, "print") {
            TokenType::PRINT
        } else if same_text(word, "return") {
            TokenType::RETURN
        } else if same_text(word, "super") {
            TokenType::SUPER
        } else if same_text(word, "this") {
            TokenType::THIS
        } else if same_text(word, "true") {
            TokenType::TRUE
        } else if same_text(word, "var") {
            TokenType::VAR
        } else if same_text(word, "while") {
            TokenType::WHILE
        } else {
            TokenType::IDENTIFIER
        }
    }

    /// Appends one token to the collected ones.
    pub fn add_token(
        &mut self,
        token_type: TokenType,
        lexeme: String,
        literal: Option<String>,
        line: usize,
    )
        ensures
            final(self).tokens_view() == old(self).tokens_view().push(
                TokenView {
                    token_type,
                    lexeme: lexeme@,
                    literal: crate::token::text_of(literal),
                    line,
                },
            ),
            final(self).errors_view() == old(self).errors_view(),
    {
        let token = Token::new(token_type, lexeme, literal, line);
        self.tokens.push(token);
        assert(token_views(self.tokens@) =~= token_views(old(self).tokens@).push(token@));
    }

    /// Records one lexical error.
    fn lexer_error(&mut self, line: usize, kind: LexErrorKind)
        ensures
            final(self).errors_view() == old(self).errors_view().push(LexError { line, kind }),
            final(self).tokens_view() == old(self).tokens_view(),
    {
        self.errors.push(LexError { line, kind });
    }

    /// Scans `file_contents` and appends its tokens, closed by `EOF`, and its
    /// lexical errors to the collected ones. Returns 65 if the text holds a
    /// lexical error, 0 if it holds none.
    pub fn scan(&mut self, file_contents: String) -> (result: i32)
        requires
            file_contents@.len() < usize::MAX,
        ensures
            final(self).tokens_view() == old(self).tokens_view() + scanned_tokens(file_contents@),
            final(self).errors_view() == old(self).errors_view() + scanned_errors(file_contents@),
            result == scan_status(scanned_errors(file_contents@)),
            final(self).tokens_view().len() > 0,
            final(self).tokens_view().last().token_type == TokenType::EOF,
    {
        let chars = chars_of(file_contents.as_str());
        let n: usize = chars.len();
        let ghost s = file_contents@;
        let ghost tokens0 = self.tokens_view();
        let ghost errors0 = self.errors_view();
        let mut index: usize = 0;
        let mut line: usize = 1;
        let mut result: i32 = 0;
        while index < n
            invariant
                index <= n,
                n == s.len(),
                n < usize::MAX,
                s == chars@,
                1 <= line <= index + 1,
                self.tokens_view() + tokens_from(s, index as int, line) == tokens0
                    + scanned_tokens(s),
                self.errors_view() + errors_from(s, index as int, line) == errors0
                    + scanned_errors(s),
                result == scan_status(
                    self.errors_view().subrange(errors0.len() as int, self.errors_view().len() as int),
                ),
                errors0.len() <= self.errors_view().len(),
                self.errors_view().subrange(0, errors0.len() as int) == errors0,
            decreases n - index,
        {
            proof {
                lemma_scan_step_advances(s, index as int, line);
            }
            let ghost before_tokens = self.tokens_view();
            let ghost before_errors = self.errors_view();
            let ghost step = scan_step(s, index as int, line);
            let (next, next_line, failed) = self.step(&chars, index, line);
            proof {
                let rest_t = tokens_from(s, step.next, step.line);
                let rest_e = errors_from(s, step.next, step.line);
                match step.token {
                    Some(t) => {
                        assert(before_tokens.push(t) + rest_t =~= before_tokens + (seq![t]
                            + rest_t));
                    },
                    None => {},
                }
                match step.error {
                    Some(e) => {
                        assert(before_errors.push(e) + rest_e =~= before_errors + (seq![e]
                            + rest_e));
                        assert(self.errors_view().subrange(0, errors0.len() as int)
                            =~= before_errors.subrange(0, errors0.len() as int));
                    },
                    None => {},
                }
            }
            if failed {
                result = 65;
            }
            index = next;
            line = next_line;
        }
        self.add_token(TokenType::EOF, String::new(), None, line);
        proof {
            assert(tokens_from(s, index as int, line) =~= seq![eof_token(line)]);
            assert(errors_from(s, index as int, line) =~= Seq::<LexError>::empty());
            assert(self.tokens_view() =~= tokens0 + scanned_tokens(s));
            assert(self.errors_view() =~= errors0 + scanned_errors(s));
            assert(self.errors_view().subrange(errors0.len() as int, self.errors_view().len() as int)
                =~= scanned_errors(s));
            lemma_stream_ends_with_eof(s, 0, 1);
        }
        result
    }

    /// Takes the scanner's step at `index`: appends the token or records the
    /// error of that step, and returns where and on which line to go on, and
    /// whether an error was recorded.
    fn step(&mut self, chars: &Vec<char>, index: usize, line: usize) -> (r: (usize, usize, bool))
        requires
            index < chars@.len(),
            chars@.len() < usize::MAX,
            1 <= line <= index + 1,
        ensures
            r.0 == scan_step(chars@, index as int, line).next,
            r.1 == scan_step(chars@, index as int, line).line,
            r.2 == scan_step(chars@, index as int, line).error.is_some(),
            final(self).tokens_view() == match scan_step(chars@, index as int, line).token {
                Some(t) => old(self).tokens_view().push(t),
                None => old(self).tokens_view(),
            },
            final(self).errors_view() == match scan_step(chars@, index as int, line).error {
                Some(e) => old(self).errors_view().push(e),
                None => old(self).errors_view(),
            },
    {
        let ghost s = chars@;
        let n = chars.len();
        proof {
            lemma_scan_step_advances(s, index as int, line);
        }
        let c = chars[index];
        let followed_by_equal = index + 1 < n && chars[index + 1] == '=';
        match is_punctuation(c) {
            Some(kind) => {
                self.emit_plain(kind, chars, index, index + 1, line);
                return (index + 1, line, false);
            },
            None => {},
        }
        if c == '!' {
            self.emit_operator(
                TokenType::BANG,
                TokenType::BANG_EQUAL,
                followed_by_equal,
                chars,
                index,
                line,
            )
        } else if c == '=' {
            self.emit_operator(
                TokenType::EQUAL,
                TokenType::EQUAL_EQUAL,
                followed_by_equal,
                chars,
                index,
                line,
            )
        } else if c == '<' {
            self.emit_operator(
                TokenType::LESS,
                TokenType::LESS_EQUAL,
                followed_by_equal,
                chars,
                index,
                line,
            )
        } else if c == '>' {
            self.emit_operator(
                TokenType::GREATER,
                TokenType::GREATER_EQUAL,
                followed_by_equal,
                chars,
                index,
                line,
            )
        } else if c == '/' {
            if index + 1 < n && chars[index + 1] == '/' {
                let end = find_run_end(chars, index, CharClass::NotNewline);
                (end, line, false)
            } else {
                self.emit_plain(TokenType::SLASH, chars, index, index + 1, line);
                (index + 1, line, false)
            }
        } else if c == '"' {
            let close = find_run_end(chars, index + 1, CharClass::NotQuote);
            let breaks = count_newlines(chars, index + 1, close);
            let last_line = line + breaks;
            if close < n {
                let lexeme = text_between(chars, index, close + 1);
                let literal = text_between(chars, index + 1, close);
                self.add_token(TokenType::STRING, lexeme, Some(literal), line);
                (close + 1, last_line, false)
            } else {
                self.lexer_error(line, LexErrorKind::UnterminatedString);
                (close, last_line, true)
            }
        } else if c == ' ' || c == '\t' || c == '\r' || c == '\0' {
            (index + 1, line, false)
        } else if c == '\n' {
            (index + 1, line + 1, false)
        } else if Self::is_digit(c) {
            let whole = find_run_end(chars, index, CharClass::Digit);
            let end = if whole + 1 < n && chars[whole] == '.' && Self::is_digit(chars[whole + 1]) {
                find_run_end(chars, whole + 1, CharClass::Digit)
            } else {
                whole
            };
            let lexeme = text_between(chars, index, end);
            let literal = lexeme.clone();
            self.add_token(TokenType::NUMBER, lexeme, Some(literal), line);
            (end, line, false)
        } else if Self::is_alpha(c) {
            let end = find_run_end(chars, index, CharClass::AlphaNumeric);
            let word = text_between(chars, index, end);
            let kind = Self::get_reserverd_word_token_type(word.as_str());
            self.add_token(kind, word, None, line);
            (end, line, false)
        } else {
            self.lexer_error(line, LexErrorKind::UnexpectedCharacter(c));
            (index + 1, line, true)
        }
    }

    /// Appends the payload-free token `kind` with lexeme `chars[from..to]`.
    fn emit_plain(
        &mut self,
        kind: TokenType,
        chars: &Vec<char>,
        from: usize,
        to: usize,
        line: usize,
    )
        requires
            from <= to <= chars@.len(),
        ensures
            final(self).tokens_view() == old(self).tokens_view().push(
                plain_token(kind, chars@, from as int, to as int, line),
            ),
            final(self).errors_view() == old(self).errors_view(),
    {
        let lexeme = text_between(chars, from, to);
        self.add_token(kind, lexeme, None, line);
    }

    /// Appends the token for one of `! = < >` at `index`, and returns the
    /// step taken.
    fn emit_operator(
        &mut self,
        single: TokenType,
        with_equal: TokenType,
        followed_by_equal: bool,
        chars: &Vec<char>,
        index: usize,
        line: usize,
    ) -> (r: (usize, usize, bool))
        requires
            index < chars@.len(),
            chars@.len() < usize::MAX,
            followed_by_equal == (index + 1 < chars@.len() && chars@[index + 1] == '='),
        ensures
            r.0 == emit_operator(single, with_equal, chars@, index as int, line).next,
            r.1 == line,
            !r.2,
            final(self).tokens_view() == old(self).tokens_view().push(
                emit_operator(single, with_equal, chars@, index as int, line).token->0,
            ),
            final(self).errors_view() == old(self).errors_view(),
    {
        if followed_by_equal {
            self.emit_plain(with_equal, chars, index, index + 2, line);
            (index + 2, line, false)
        } else {
            self.emit_plain(single, chars, index, index + 1, line);
            (index + 1, line, false)
        }
    }

    /// A copy of the tokens collected so far.
    pub fn get_tokens(&mut self) -> (tokens: Vec<Token>)
        ensures
            token_views(tokens@) == old(self).tokens_view(),
            final(self).tokens_view() == old(self).tokens_view(),
            final(self).errors_view() == old(self).errors_view(),
    {
        let mut copy: Vec<Token> = Vec::new();
        let mut i: usize = 0;
        while i < self.tokens.len()
            invariant
                i <= self.tokens.len(),
                copy.len() == i,
                forall|j: int| 0 <= j < i ==> copy@[j]@ == self.tokens@[j]@,
                self.tokens_view() == old(self).tokens_view(),
                self.errors_view() == old(self).errors_view(),
            decreases self.tokens.len() - i,
        {
            copy.push(self.tokens[i].clone());
            i += 1;
        }
        assert(token_views(copy@) =~= token_views(self.tokens@));
        copy
    }

    /// The listing of the collected tokens, one line for each token.
    pub fn print_tokens(&self) -> (listing: Vec<Fragment>)
        ensures
            fragment_views(listing@) == token_lines(self.tokens_view()),
    {
        let mut listing: Vec<Fragment> = Vec::new();
        let mut i: usize = 0;
        assert(fragment_views(listing@) =~= token_lines(self.tokens_view().take(0)));
        while i < self.tokens.len()
            invariant
                i <= self.tokens.len(),
                fragment_views(listing@) == token_lines(self.tokens_view().take(i as int)),
            decreases self.tokens.len() - i,
        {
            let ghost before = fragment_views(listing@);
            let mut line = self.tokens[i].to_string();
            let ghost line_view = fragment_views(line@);
            listing.append(&mut line);
            listing.push(Fragment::newline());
            proof {
                let next = self.tokens_view().take(i + 1);
                assert(next.drop_last() =~= self.tokens_view().take(i as int));
                assert(next.last() == self.tokens@[i as int]@);
                assert(fragment_views(listing@) =~= before + line_view + seq![
                    crate::text::end_of_line(),
                ]);
            }
            i += 1;
        }
        assert(self.tokens_view().take(i as int) =~= self.tokens_view());
        listing
    }

    /// A copy of the lexical errors met so far.
    pub fn get_errors(&self) -> (errors: Vec<LexError>)
        ensures
            errors@ == self.errors_view(),
    {
        let mut copy: Vec<LexError> = Vec::new();
        let mut i: usize = 0;
        while i < self.errors.len()
            invariant
                i <= self.errors.len(),
                copy@ == self.errors@.subrange(0, i as int),
            decreases self.errors.len() - i,
        {
            copy.push(self.errors[i]);
            assert(copy@ =~= self.errors@.subrange(0, i + 1));
            i += 1;
        }
        assert(copy@ =~= self.errors@);
        copy
    }
}

fn class_holds(class: CharClass, c: char) -> (r: bool)
    ensures
        r == in_class(class, c),
{
    match class {
        CharClass::Digit => Tokenizer::is_digit(c),
        CharClass::AlphaNumeric => Tokenizer::is_alpha_numberic(c),
        CharClass::NotNewline => c != '\n',
        CharClass::NotQuote => c != '"',
    }
}

/// Finds where the run of `class` characters that starts at `from` ends.
pub fn find_run_end(chars: &Vec<char>, from: usize, class: CharClass) -> (end: usize)
    requires
        from <= chars@.len(),
    ensures
        end == run_end(chars@, from as int, class),
        from <= end <= chars@.len(),
{
    let n = chars.len();
    let mut i: usize = from;
    while i < n && class_holds(class, chars[i])
        invariant
            from <= i <= n,
            n == chars@.len(),
            run_end(chars@, from as int, class) == run_end(chars@, i as int, class),
        decreases n - i,
    {
        i += 1;
    }
    i
}

/// Counts the line breaks in `chars[from..to]`.
fn count_newlines(chars: &Vec<char>, from: usize, to: usize) -> (count: usize)
    requires
        from <= to <= chars@.len(),
    ensures
        count == newlines_between(chars@, from as int, to as int),
        count <= to - from,
{
    let mut i: usize = from;
    let mut count: usize = 0;
    while i < to
        invariant
            from <= i <= to <= chars@.len(),
            count == newlines_between(chars@, from as int, i as int),
            count <= i - from,
        decreases to - i,
    {
        if chars[i] == '\n' {
            count += 1;
        }
        i += 1;
    }
    count
}

} // verus!
