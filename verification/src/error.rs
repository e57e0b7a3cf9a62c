//! The errors that end a parse or a run.

use vstd::prelude::*;
use crate::token::{Token, TokenView};
use crate::text::{decimal, decimal_text};

verus! {

/// An error met while evaluating. Each one ends the run.
#[derive(Debug)]
pub enum RuntimeError {
    /// Unary `-` on a value that is no number.
    OperandMustBeNumber,
    /// `-`, `*`, `/` or a comparison on a value that is no number.
    OperandsMustBeNumbers,
    /// `+` on anything but two numbers or two strings.
    OperandsMustBeNumbersOrStrings,
    /// A read of, or an assignment to, a name that no enclosing scope holds.
    UndefinedVariable(String),
    /// A scope was to be left where only the global scope is open.
    NoEnclosingScope,
}

/// The mathematical value of a [`RuntimeError`].
pub ghost enum RuntimeErrorView {
    OperandMustBeNumber,
    OperandsMustBeNumbers,
    OperandsMustBeNumbersOrStrings,
    UndefinedVariable(Seq<char>),
    NoEnclosingScope,
}

impl View for RuntimeError {
    type V = RuntimeErrorView;

    open spec fn view(&self) -> RuntimeErrorView {
        match self {
            RuntimeError::OperandMustBeNumber => RuntimeErrorView::OperandMustBeNumber,
            RuntimeError::OperandsMustBeNumbers => RuntimeErrorView::OperandsMustBeNumbers,
            RuntimeError::OperandsMustBeNumbersOrStrings =>
                RuntimeErrorView::OperandsMustBeNumbersOrStrings,
            RuntimeError::UndefinedVariable(name) => RuntimeErrorView::UndefinedVariable(name@),
            RuntimeError::NoEnclosingScope => RuntimeErrorView::NoEnclosingScope,
        }
    }
}

/// The sentence that reports a runtime error.
pub open spec fn runtime_message(e: RuntimeErrorView) -> Seq<char> {
    match e {
        RuntimeErrorView::OperandMustBeNumber => "Operand must be a number."@,
        RuntimeErrorView::OperandsMustBeNumbers => "Operands must be numbers."@,
        RuntimeErrorView::OperandsMustBeNumbersOrStrings =>
            "Operands must be two numbers or two strings."@,
        RuntimeErrorView::UndefinedVariable(name) => "Undefined variable "@ + name + "."@,
        RuntimeErrorView::NoEnclosingScope => "No enclosing scope."@,
    }
}

impl RuntimeError {
    /// The exit code of a run that ended with a runtime error.
    pub const EXIT_CODE: i32 = 70;

    /// The sentence that reports this error.
    pub fn message(&self) -> (text: String)
        ensures
            text@ == runtime_message(self@),
    {
        match self {
            RuntimeError::OperandMustBeNumber => String::from_str("Operand must be a number."),
            RuntimeError::OperandsMustBeNumbers => String::from_str("Operands must be numbers."),
            RuntimeError::OperandsMustBeNumbersOrStrings => String::from_str(
                "Operands must be two numbers or two strings.",
            ),
            RuntimeError::UndefinedVariable(name) => {
                let mut text = String::from_str("Undefined variable ");
                text.append(name.as_str());
                text.append(".");
                text
            },
            RuntimeError::NoEnclosingScope => String::from_str("No enclosing scope."),
        }
    }
}

/// What the parser missed.
#[derive(Debug, PartialEq, Eq, Clone, Copy, Structural)]
pub enum ParseErrorKind {
    /// No expression starts at the token, or a `(` is not closed.
    ExpectExpression,
    /// The left side of `=` is no variable.
    InvalidAssignmentTarget,
    /// `var` is not followed by a name.
    ExpectVariableName,
    /// A block is not closed.
    ExpectRightBrace,
    /// A statement is not closed by `;`.
    ExpectSemicolon,
}

/// A syntax error: what was missed, and the token at which it was missed.
#[derive(Debug)]
pub struct ParseError {
    pub kind: ParseErrorKind,
    pub line: usize,
    pub lexeme: String,
}

/// The mathematical value of a [`ParseError`].
pub ghost struct ParseErrorView {
    pub kind: ParseErrorKind,
    pub line: usize,
    pub lexeme: Seq<char>,
}

impl View for ParseError {
    type V = ParseErrorView;

    open spec fn view(&self) -> ParseErrorView {
        ParseErrorView { kind: self.kind, line: self.line, lexeme: self.lexeme@ }
    }
}

/// The error of kind `kind` at position `pos` of `tokens`: it names the line
/// and the lexeme of the token there, or line 1 and no lexeme past the end.
pub open spec fn error_at(tokens: Seq<TokenView>, pos: int, kind: ParseErrorKind)
    -> ParseErrorView {
    if 0 <= pos < tokens.len() {
        ParseErrorView { kind, line: tokens[pos].line, lexeme: tokens[pos].lexeme }
    } else {
        ParseErrorView { kind, line: 1, lexeme: Seq::empty() }
    }
}

/// The sentence for each kind of syntax error.
pub open spec fn parse_sentence(kind: ParseErrorKind) -> Seq<char> {
    match kind {
        ParseErrorKind::ExpectExpression => "Expect expression."@,
        ParseErrorKind::InvalidAssignmentTarget => "Invalid assignment target."@,
        ParseErrorKind::ExpectVariableName => "Expect variable name."@,
        ParseErrorKind::ExpectRightBrace => "Expect '}' after block."@,
        ParseErrorKind::ExpectSemicolon => "expected semicolon"@,
    }
}

impl ParseErrorKind {
    /// The sentence for this kind of error.
    pub fn sentence(&self) -> (text: &'static str)
        ensures
            text@ == parse_sentence(*self),
    {
        match self {
            ParseErrorKind::ExpectExpression => "Expect expression.",
            ParseErrorKind::InvalidAssignmentTarget => "Invalid assignment target.",
            ParseErrorKind::ExpectVariableName => "Expect variable name.",
            ParseErrorKind::ExpectRightBrace => "Expect '}' after block.",
            ParseErrorKind::ExpectSemicolon => "expected semicolon",
        }
    }
}

/// The line that reports a syntax error. An invalid assignment target is
/// reported by its sentence alone. Where a token is missing, the line names
/// the line and the lexeme of the token that stands in its place, then the
/// sentence.
pub open spec fn parse_message(e: ParseErrorView) -> Seq<char> {
    if e.kind == ParseErrorKind::InvalidAssignmentTarget {
        parse_sentence(e.kind)
    } else {
        "[line "@ + decimal_text(e.line as nat) + "] Error at '"@ + e.lexeme + "': "@
            + parse_sentence(e.kind)
    }
}

impl ParseError {
    /// The exit code of a run that ended with a syntax error.
    pub const EXIT_CODE: i32 = 65;

    /// The line that reports this error.
    pub fn message(&self) -> (text: String)
        ensures
            text@ == parse_message(self@),
    {
        match self.kind {
            ParseErrorKind::InvalidAssignmentTarget => String::from_str(self.kind.sentence()),
            _ => {
                let mut text = String::from_str("[line ");
                text.append(decimal(self.line).as_str());
                text.append("] Error at '");
                text.append(self.lexeme.as_str());
                text.append("': ");
                text.append(self.kind.sentence());
                text
            },
        }
    }

    /// The error of kind `kind` at position `pos` of `tokens`.
    pub fn at(tokens: &Vec<Token>, pos: usize, kind: ParseErrorKind) -> (e: ParseError)
        ensures
            e@ == error_at(crate::token::token_views(tokens@), pos as int, kind),
    {
        if pos < tokens.len() {
            ParseError { kind, line: tokens[pos].line, lexeme: tokens[pos].lexeme.clone() }
        } else {
            ParseError { kind, line: 1, lexeme: String::new() }
        }
    }
}

} // verus!
