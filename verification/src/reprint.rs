//! Printing an expression and reading back what was printed.
//!
//! The printed form of an expression is text, and that text can be scanned
//! and parsed again. Here the question is settled what comes of that, for
//! the expressions that are written with names and the words `true`,
//! `false` and `nil` alone: a word is read back as it is, a unary operation
//! is read back in parentheses and so printed differently, and the printed
//! form of every other operation is rejected.

use vstd::prelude::*;
use crate::token::{TokenType, TokenView};
use crate::tokenizer::{
    CharClass, LexError, ScanStep, scan_step, tokens_from, errors_from, run_end, in_class,
    newlines_between, number_end, eof_token, word_kind, scanned_tokens, scanned_errors,
};
use crate::expr::{ExpressionView, LiteralView, is_binary_operator, prefix_form};
use crate::text::FragmentView;
use crate::interpreter::{ReportView, parse_report, prefix_forms};
use crate::grammar::{
    Level, ParsedItems, accepted, at_end, check, parse_primary, parse_unary,
    parse_operand, parse_level, parse_level_rest, parse_assignment, parse_expression,
    parse_expressions,
};
use crate::laws::{
    is_word, is_identifier, word_token, operator_text, printed_alone, has_its_text,
    lemma_run_to_the_end, lemma_run_stops, lemma_group_is_a_name,
    lemma_step_gives_operator_its_text,
};
use crate::derivation::{Rule, derives, rule_rank, tighter, lemma_expression_derives};
use crate::grammar::is_level_operator;

verus! {

/// A run behind a prefix ends where the run in the text without the prefix
/// ends.
pub proof fn lemma_run_end_behind(a: Seq<char>, b: Seq<char>, j: int, class: CharClass)
    requires
        0 <= j <= b.len(),
    ensures
        run_end(a + b, a.len() + j, class) == a.len() + run_end(b, j, class),
    decreases b.len() - j,
{
    if j < b.len() {
        assert((a + b)[a.len() + j] == b[j]);
        if in_class(class, b[j]) {
            lemma_run_end_behind(a, b, j + 1, class);
        }
    }
}

/// A stretch of text behind a prefix holds as many line breaks as the same
/// stretch of the text without the prefix.
pub proof fn lemma_newlines_behind(a: Seq<char>, b: Seq<char>, from: int, to: int)
    requires
        0 <= from <= to <= b.len(),
    ensures
        newlines_between(a + b, a.len() + from, a.len() + to) == newlines_between(b, from, to),
    decreases to - from,
{
    if from < to {
        assert((a + b)[a.len() + to - 1] == b[to - 1]);
        lemma_newlines_behind(a, b, from, to - 1);
    }
}

/// The step `step`, taken behind a prefix of length `shift`.
pub open spec fn behind(shift: int, step: ScanStep) -> ScanStep {
    ScanStep { next: shift + step.next, line: step.line, token: step.token, error: step.error }
}

/// The scanner looks ahead only: the step it takes at a position behind a
/// prefix is the step it takes at that position of the text without the
/// prefix.
pub proof fn lemma_step_behind(a: Seq<char>, b: Seq<char>, j: int, line: usize)
    requires
        0 <= j < b.len(),
    ensures
        scan_step(a + b, a.len() + j, line) == behind(a.len() as int, scan_step(b, j, line)),
{
    let s = a + b;
    let n = a.len() as int;
    let i = n + j;
    assert(s[i] == b[j]);
    if j + 1 < b.len() {
        assert(s[i + 1] == b[j + 1]);
    }
    assert(s.len() == n + b.len());
    assert(s.subrange(i, i + 1) =~= b.subrange(j, j + 1));
    if j + 1 < b.len() {
        assert(s.subrange(i, i + 2) =~= b.subrange(j, j + 2));
    }
    lemma_run_end_behind(a, b, j, CharClass::NotNewline);
    lemma_run_end_behind(a, b, j, CharClass::AlphaNumeric);
    lemma_run_end_behind(a, b, j, CharClass::Digit);
    lemma_run_end_behind(a, b, j + 1, CharClass::NotQuote);
    crate::tokenizer::lemma_run_end(b, j, CharClass::AlphaNumeric);
    crate::tokenizer::lemma_run_end(b, j, CharClass::Digit);
    crate::tokenizer::lemma_run_end(b, j + 1, CharClass::NotQuote);
    // The string.
    let close = run_end(b, j + 1, CharClass::NotQuote);
    lemma_newlines_behind(a, b, j + 1, close);
    assert(s.subrange(i + 1, n + close) =~= b.subrange(j + 1, close));
    if close < b.len() {
        assert(s.subrange(i, n + close + 1) =~= b.subrange(j, close + 1));
    }
    // The number.
    let whole = run_end(b, j, CharClass::Digit);
    if whole + 1 < b.len() {
        assert(s[n + whole] == b[whole]);
        assert(s[n + whole + 1] == b[whole + 1]);
        lemma_run_end_behind(a, b, whole + 1, CharClass::Digit);
        crate::tokenizer::lemma_run_end(b, whole + 1, CharClass::Digit);
    }
    assert(number_end(s, i) == n + number_end(b, j));
    let number = number_end(b, j);
    assert(s.subrange(i, n + number) =~= b.subrange(j, number));
    // The word.
    let word = run_end(b, j, CharClass::AlphaNumeric);
    assert(s.subrange(i, n + word) =~= b.subrange(j, word));
}

/// What the scanner makes of a text from a position on depends on the text
/// from that position on alone: behind a prefix it leaves the tokens and
/// the errors that it leaves in the text without the prefix.
pub proof fn lemma_scan_behind(a: Seq<char>, b: Seq<char>, j: int, line: usize)
    requires
        0 <= j <= b.len(),
    ensures
        tokens_from(a + b, a.len() + j, line) == tokens_from(b, j, line),
        errors_from(a + b, a.len() + j, line) == errors_from(b, j, line),
    decreases b.len() - j,
{
    if j < b.len() {
        lemma_step_behind(a, b, j, line);
        let step = scan_step(b, j, line);
        if j < step.next <= b.len() {
            lemma_scan_behind(a, b, step.next, step.line);
        }
    }
}

/// The shape of an expression that is written with names and the words
/// `true`, `false` and `nil` alone, as far as its printed form shows it.
pub ghost enum Shape {
    /// A name, or one of the three words. An assignment is printed as the
    /// name that it assigns to, so it has this shape too.
    Word(Seq<char>),
    /// A unary operation with its operator.
    Unary(TokenType, Box<Shape>),
    /// A binary operation with its operator.
    Binary(TokenType, Box<Shape>, Box<Shape>),
    /// An expression in parentheses.
    Group(Box<Shape>),
}

/// A word that is read as a name or as one of `true`, `false`, `nil`.
pub open spec fn is_atom_word(w: Seq<char>) -> bool {
    &&& is_word(w)
    &&& {
        ||| word_kind(w) == TokenType::IDENTIFIER
        ||| word_kind(w) == TokenType::TRUE
        ||| word_kind(w) == TokenType::FALSE
        ||| word_kind(w) == TokenType::NIL
    }
}

/// Whether the words of the shape are names or one of the three words, and
/// its operators are operators of their kind of operation.
pub open spec fn well_shaped(s: Shape) -> bool
    decreases s,
{
    match s {
        Shape::Word(w) => is_atom_word(w),
        Shape::Unary(kind, x) => (kind == TokenType::MINUS || kind == TokenType::BANG)
            && well_shaped(*x),
        Shape::Binary(kind, l, r) => is_binary_operator(kind) && well_shaped(*l) && well_shaped(
            *r,
        ),
        Shape::Group(x) => well_shaped(*x),
    }
}

/// The text of the printed form.
pub open spec fn text(s: Shape) -> Seq<char>
    decreases s,
{
    match s {
        Shape::Word(w) => w,
        Shape::Unary(kind, x) => "("@ + operator_text(kind) + " "@ + text(*x) + ")"@,
        Shape::Binary(kind, l, r) => "("@ + operator_text(kind) + " "@ + text(*l) + " "@ + text(
            *r,
        ) + ")"@,
        Shape::Group(x) => "("@ + "group"@ + " "@ + text(*x) + ")"@,
    }
}

/// The token of kind `kind` with the lexeme `lexeme`, on the first line.
pub open spec fn token(kind: TokenType, lexeme: Seq<char>) -> TokenView {
    TokenView { token_type: kind, lexeme, literal: None, line: 1 }
}

/// The tokens that the printed form is made of.
pub open spec fn written(s: Shape) -> Seq<TokenView>
    decreases s,
{
    match s {
        Shape::Word(w) => seq![word_token(w)],
        Shape::Unary(kind, x) => seq![
            token(TokenType::LEFT_PAREN, "("@),
            token(kind, operator_text(kind)),
        ] + written(*x) + seq![token(TokenType::RIGHT_PAREN, ")"@)],
        Shape::Binary(kind, l, r) => seq![
            token(TokenType::LEFT_PAREN, "("@),
            token(kind, operator_text(kind)),
        ] + written(*l) + written(*r) + seq![token(TokenType::RIGHT_PAREN, ")"@)],
        Shape::Group(x) => seq![token(TokenType::LEFT_PAREN, "("@), word_token("group"@)]
            + written(*x) + seq![token(TokenType::RIGHT_PAREN, ")"@)],
    }
}

/// The tokens that a step leaves: one or none.
pub open spec fn left_by(step: ScanStep) -> Seq<TokenView> {
    match step.token {
        Some(t) => seq![t],
        None => Seq::empty(),
    }
}

/// Where the first step in a text takes the scanner over `head` on the
/// first line and without error, the stream of the text is what that step
/// leaves, then the stream of the text behind `head`.
proof fn lemma_head_then_tail(head: Seq<char>, tail: Seq<char>)
    requires
        head.len() > 0,
        scan_step(head + tail, 0, 1).next == head.len(),
        scan_step(head + tail, 0, 1).line == 1,
        scan_step(head + tail, 0, 1).error is None,
    ensures
        tokens_from(head + tail, 0, 1) == left_by(scan_step(head + tail, 0, 1)) + tokens_from(
            tail,
            0,
            1,
        ),
        errors_from(head + tail, 0, 1) == errors_from(tail, 0, 1),
{
    lemma_scan_behind(head, tail, 0, 1);
    let step = scan_step(head + tail, 0, 1);
    let rest = tokens_from(head + tail, head.len() as int, 1);
    match step.token {
        Some(t) => {},
        None => {
            assert(Seq::<TokenView>::empty() + rest =~= rest);
        },
    }
}

/// Whether a text can follow a printed form: it is empty, or it starts
/// with a blank or with `)`.
pub open spec fn follows_a_form(rest: Seq<char>) -> bool {
    rest.len() == 0 || rest[0] == ' ' || rest[0] == ')'
}

/// The scanner reads a word in front of what can follow a form as one
/// token.
proof fn lemma_word_then(w: Seq<char>, rest: Seq<char>)
    requires
        is_word(w),
        follows_a_form(rest),
    ensures
        tokens_from(w + rest, 0, 1) == seq![word_token(w)] + tokens_from(rest, 0, 1),
        errors_from(w + rest, 0, 1) == errors_from(rest, 0, 1),
{
    let p = w + rest;
    assert forall|j: int| 0 <= j < w.len() implies in_class(
        CharClass::AlphaNumeric,
        #[trigger] p[j],
    ) by {
        assert(p[j] == w[j]);
    }
    if rest.len() == 0 {
        assert(p =~= w);
        lemma_run_to_the_end(p, 0, CharClass::AlphaNumeric);
    } else {
        assert(p[w.len() as int] == rest[0]);
        lemma_run_stops(p, 0, w.len() as int, CharClass::AlphaNumeric);
    }
    assert(p[0] == w[0]);
    assert(p.subrange(0, w.len() as int) =~= w);
    lemma_head_then_tail(w, rest);
}

/// The scanner reads `(` in front of any text as a token.
proof fn lemma_open_then(rest: Seq<char>)
    ensures
        tokens_from("("@ + rest, 0, 1) == seq![token(TokenType::LEFT_PAREN, "("@)] + tokens_from(
            rest,
            0,
            1,
        ),
        errors_from("("@ + rest, 0, 1) == errors_from(rest, 0, 1),
{
    reveal_strlit("(");
    let p = "("@ + rest;
    assert(p[0] == '(');
    assert(p.subrange(0, 1) =~= "("@);
    lemma_head_then_tail("("@, rest);
}

/// The scanner reads `)` in front of any text as a token.
proof fn lemma_close_then(rest: Seq<char>)
    ensures
        tokens_from(")"@ + rest, 0, 1) == seq![token(TokenType::RIGHT_PAREN, ")"@)]
            + tokens_from(rest, 0, 1),
        errors_from(")"@ + rest, 0, 1) == errors_from(rest, 0, 1),
{
    reveal_strlit(")");
    let p = ")"@ + rest;
    assert(p[0] == ')');
    assert(p.subrange(0, 1) =~= ")"@);
    lemma_head_then_tail(")"@, rest);
}

/// The scanner skips a blank in front of any text.
proof fn lemma_blank_then(rest: Seq<char>)
    ensures
        tokens_from(" "@ + rest, 0, 1) == tokens_from(rest, 0, 1),
        errors_from(" "@ + rest, 0, 1) == errors_from(rest, 0, 1),
{
    reveal_strlit(" ");
    let p = " "@ + rest;
    assert(p[0] == ' ');
    lemma_head_then_tail(" "@, rest);
    assert(Seq::<TokenView>::empty() + tokens_from(rest, 0, 1) =~= tokens_from(rest, 0, 1));
}

/// The scanner reads an operator in front of a blank as one token.
proof fn lemma_operator_then(kind: TokenType, rest: Seq<char>)
    requires
        is_binary_operator(kind) || kind == TokenType::MINUS || kind == TokenType::BANG,
        rest.len() > 0,
        rest[0] == ' ',
    ensures
        tokens_from(operator_text(kind) + rest, 0, 1) == seq![token(kind, operator_text(kind))]
            + tokens_from(rest, 0, 1),
        errors_from(operator_text(kind) + rest, 0, 1) == errors_from(rest, 0, 1),
{
    reveal_strlit("+");
    reveal_strlit("-");
    reveal_strlit("*");
    reveal_strlit("/");
    reveal_strlit("!");
    reveal_strlit("!=");
    reveal_strlit("==");
    reveal_strlit("<");
    reveal_strlit("<=");
    reveal_strlit(">");
    reveal_strlit(">=");
    let op = operator_text(kind);
    let p = op + rest;
    assert(p[0] == op[0]);
    assert(p[op.len() as int] == ' ');
    if op.len() == 2 {
        assert(p[1] == op[1]);
    }
    assert(p.subrange(0, op.len() as int) =~= op);
    lemma_head_then_tail(op, rest);
}

/// Joining sequences does not depend on where the parentheses stand.
proof fn lemma_join<A>(a: Seq<A>, b: Seq<A>, c: Seq<A>)
    ensures
        (a + b) + c == a + (b + c),
{
    assert((a + b) + c =~= a + (b + c));
}

/// Whether the scanner reads the text `form` in front of `rest` as the
/// tokens `made`, without error.
pub open spec fn scans_as(form: Seq<char>, made: Seq<TokenView>, rest: Seq<char>) -> bool {
    &&& tokens_from(form + rest, 0, 1) == made + tokens_from(rest, 0, 1)
    &&& errors_from(form + rest, 0, 1) == errors_from(rest, 0, 1)
}

/// What stands behind the head of a parenthesized form: a blank, what the
/// parentheses hold besides the head, `)` and the rest.
pub open spec fn behind_head(inner: Seq<char>, rest: Seq<char>) -> Seq<char> {
    " "@ + (inner + (")"@ + rest))
}

/// The scanner reads `( head inner )`, where it reads `head` as one token
/// and `inner` as the tokens `made`, as `(`, the token of the head, `made`
/// and `)`.
proof fn lemma_parenthesized_scans(
    head: Seq<char>,
    head_token: TokenView,
    inner: Seq<char>,
    made: Seq<TokenView>,
    rest: Seq<char>,
)
    requires
        scans_as(head, seq![head_token], behind_head(inner, rest)),
        scans_as(inner, made, ")"@ + rest),
    ensures
        scans_as(
            "("@ + head + " "@ + inner + ")"@,
            seq![token(TokenType::LEFT_PAREN, "("@), head_token] + made + seq![
                token(TokenType::RIGHT_PAREN, ")"@),
            ],
            rest,
        ),
{
    let open = token(TokenType::LEFT_PAREN, "("@);
    let close = token(TokenType::RIGHT_PAREN, ")"@);
    let after = tokens_from(rest, 0, 1);
    let t4 = ")"@ + rest;
    let t3 = inner + t4;
    let t2 = " "@ + t3;
    let t1 = head + t2;
    let whole = "("@ + head + " "@ + inner + ")"@;
    // The text, from the right.
    lemma_join("("@ + head + " "@ + inner, ")"@, rest);
    lemma_join("("@ + head + " "@, inner, t4);
    lemma_join("("@ + head, " "@, t3);
    lemma_join("("@, head, t2);
    assert(whole + rest == "("@ + t1);
    // The tokens, from the left.
    lemma_open_then(t1);
    lemma_blank_then(t3);
    lemma_close_then(rest);
    let s4 = seq![close] + after;
    let s3 = made + s4;
    let s1 = seq![head_token] + s3;
    assert(tokens_from(t4, 0, 1) == s4);
    assert(tokens_from(t3, 0, 1) == s3);
    assert(tokens_from(t2, 0, 1) == s3);
    assert(tokens_from(t1, 0, 1) == s1);
    assert(tokens_from("("@ + t1, 0, 1) == seq![open] + s1);
    lemma_join(seq![open], seq![head_token], s3);
    lemma_join(seq![open] + seq![head_token], made, s4);
    lemma_join(seq![open] + seq![head_token] + made, seq![close], after);
    assert(seq![open] + seq![head_token] =~= seq![open, head_token]);
}

/// The scanner reads two forms with a blank between them as the tokens of
/// the first and the tokens of the second.
proof fn lemma_pair_scans(
    left: Seq<char>,
    made_left: Seq<TokenView>,
    right: Seq<char>,
    made_right: Seq<TokenView>,
    rest: Seq<char>,
)
    requires
        scans_as(left, made_left, " "@ + (right + rest)),
        scans_as(right, made_right, rest),
    ensures
        scans_as(left + " "@ + right, made_left + made_right, rest),
{
    let after = tokens_from(rest, 0, 1);
    let t2 = right + rest;
    let t1 = " "@ + t2;
    lemma_join(left + " "@, right, rest);
    lemma_join(left, " "@, t2);
    assert((left + " "@ + right) + rest == left + t1);
    lemma_blank_then(t2);
    lemma_join(made_left, made_right, after);
}

/// The scanner reads the printed form of a unary operation as its tokens,
/// where it reads the form of the operand so.
proof fn lemma_unary_form_scans(kind: TokenType, x: Shape, rest: Seq<char>)
    requires
        kind == TokenType::MINUS || kind == TokenType::BANG,
        scans_as(text(x), written(x), ")"@ + rest),
    ensures
        scans_as(
            text(Shape::Unary(kind, Box::new(x))),
            written(Shape::Unary(kind, Box::new(x))),
            rest,
        ),
{
    reveal_strlit(" ");
    let behind = behind_head(text(x), rest);
    assert(behind[0] == ' ');
    lemma_operator_then(kind, behind);
    lemma_parenthesized_scans(
        operator_text(kind),
        token(kind, operator_text(kind)),
        text(x),
        written(x),
        rest,
    );
}

/// The scanner reads the printed form of a binary operation as its tokens,
/// where it reads the forms of the operands so.
proof fn lemma_binary_form_scans(kind: TokenType, l: Shape, r: Shape, rest: Seq<char>)
    requires
        is_binary_operator(kind),
        scans_as(text(l), written(l), " "@ + (text(r) + (")"@ + rest))),
        scans_as(text(r), written(r), ")"@ + rest),
    ensures
        scans_as(
            text(Shape::Binary(kind, Box::new(l), Box::new(r))),
            written(Shape::Binary(kind, Box::new(l), Box::new(r))),
            rest,
        ),
{
    reveal_strlit(" ");
    let closed = ")"@ + rest;
    lemma_pair_scans(text(l), written(l), text(r), written(r), closed);
    let both = text(l) + " "@ + text(r);
    let behind = behind_head(both, rest);
    assert(behind[0] == ' ');
    lemma_operator_then(kind, behind);
    lemma_parenthesized_scans(
        operator_text(kind),
        token(kind, operator_text(kind)),
        both,
        written(l) + written(r),
        rest,
    );
    let head = "("@ + operator_text(kind) + " "@;
    lemma_join(head, text(l) + " "@, text(r));
    lemma_join(head, text(l), " "@);
    assert(head + both == head + text(l) + " "@ + text(r));
    lemma_join(
        seq![token(TokenType::LEFT_PAREN, "("@), token(kind, operator_text(kind))],
        written(l),
        written(r),
    );
}

/// The scanner reads the printed form of an expression in parentheses as
/// its tokens, where it reads the form of the expression so.
proof fn lemma_group_form_scans(x: Shape, rest: Seq<char>)
    requires
        scans_as(text(x), written(x), ")"@ + rest),
    ensures
        scans_as(text(Shape::Group(Box::new(x))), written(Shape::Group(Box::new(x))), rest),
{
    reveal_strlit(" ");
    lemma_group_is_a_name();
    reveal_strlit("group");
    assert(is_word("group"@));
    let behind = behind_head(text(x), rest);
    assert(behind[0] == ' ');
    lemma_word_then("group"@, behind);
    lemma_parenthesized_scans("group"@, word_token("group"@), text(x), written(x), rest);
}

/// The scanner reads the printed form of a shape, in front of what can
/// follow a form, as the tokens that the form is made of, without error.
pub proof fn lemma_form_scans(s: Shape, rest: Seq<char>)
    requires
        well_shaped(s),
        follows_a_form(rest),
    ensures
        scans_as(text(s), written(s), rest),
    decreases s,
{
    reveal_strlit(")");
    reveal_strlit(" ");
    let closed = ")"@ + rest;
    assert(closed[0] == ')');
    match s {
        Shape::Word(w) => {
            lemma_word_then(w, rest);
        },
        Shape::Unary(kind, x) => {
            lemma_form_scans(*x, closed);
            lemma_unary_form_scans(kind, *x, rest);
        },
        Shape::Binary(kind, l, r) => {
            let behind_left = " "@ + (text(*r) + closed);
            assert(behind_left[0] == ' ');
            lemma_form_scans(*l, behind_left);
            lemma_form_scans(*r, closed);
            lemma_binary_form_scans(kind, *l, *r, rest);
        },
        Shape::Group(x) => {
            lemma_form_scans(*x, closed);
            lemma_group_form_scans(*x, rest);
        },
    }
}

/// Whether the printed form of the shape is read back as an expression: a
/// word is, and a unary operation is if its operand is.
pub open spec fn reads(s: Shape) -> bool
    decreases s,
{
    match s {
        Shape::Word(_) => true,
        Shape::Unary(_, x) => reads(*x),
        _ => false,
    }
}

/// The expression that a word is read as.
pub open spec fn atom_of(w: Seq<char>) -> ExpressionView {
    if word_kind(w) == TokenType::TRUE {
        ExpressionView::Literal(LiteralView::Bool(true))
    } else if word_kind(w) == TokenType::FALSE {
        ExpressionView::Literal(LiteralView::Bool(false))
    } else if word_kind(w) == TokenType::NIL {
        ExpressionView::Literal(LiteralView::Nil)
    } else {
        ExpressionView::Variable { variable: word_token(w) }
    }
}

/// The expression that the printed form of a shape is read back as, where
/// it is read back: a word as itself, a unary operation as that operation
/// in parentheses.
pub open spec fn read_back(s: Shape) -> ExpressionView
    decreases s,
{
    match s {
        Shape::Word(w) => atom_of(w),
        Shape::Unary(kind, x) => ExpressionView::Grouping {
            expr: Box::new(
                ExpressionView::Unary {
                    operator: token(kind, operator_text(kind)),
                    expr: Box::new(read_back(*x)),
                },
            ),
        },
        _ => ExpressionView::Literal(LiteralView::Nil),
    }
}

/// The kinds of token that a printed form starts with.
pub open spec fn starts_form(kind: TokenType) -> bool {
    ||| kind == TokenType::LEFT_PAREN
    ||| kind == TokenType::IDENTIFIER
    ||| kind == TokenType::TRUE
    ||| kind == TokenType::FALSE
    ||| kind == TokenType::NIL
}

/// Whether the token at `pos` lets an expression end in front of it: the
/// input ends there, or the token is neither a binary operator nor `=`.
pub open spec fn quiet(tokens: Seq<TokenView>, pos: int) -> bool {
    at_end(tokens, pos) || (!is_binary_operator(tokens[pos].token_type) && tokens[pos].token_type
        != TokenType::EQUAL)
}

/// Every printed form is made of at least one token, and its first token
/// starts a form.
pub proof fn lemma_written_starts_a_form(s: Shape)
    requires
        well_shaped(s),
    ensures
        written(s).len() >= 1,
        starts_form(written(s)[0].token_type),
{
    match s {
        Shape::Word(w) => {},
        Shape::Unary(kind, x) => {
            assert(written(s)[0] == token(TokenType::LEFT_PAREN, "("@));
        },
        Shape::Binary(kind, l, r) => {
            assert(written(s)[0] == token(TokenType::LEFT_PAREN, "("@));
        },
        Shape::Group(x) => {
            assert(written(s)[0] == token(TokenType::LEFT_PAREN, "("@));
        },
    }
}

/// A unary expression in front of a token that lets it end is the whole
/// expression.
pub proof fn lemma_unary_alone(tokens: Seq<TokenView>, pos: int, end: int, e: ExpressionView)
    requires
        parse_unary(tokens, pos) == accepted(end, e),
        pos < end <= tokens.len(),
        quiet(tokens, end),
    ensures
        parse_expression(tokens, pos) == accepted(end, e),
{
    reveal(parse_expression);
    let done = accepted(end, e);
    assert(parse_operand(tokens, pos, Level::Factor) == done);
    assert(parse_level_rest(tokens, end, Level::Factor, e) == done);
    assert(parse_level(tokens, pos, Level::Factor) == done);
    assert(parse_operand(tokens, pos, Level::Term) == done);
    assert(parse_level_rest(tokens, end, Level::Term, e) == done);
    assert(parse_level(tokens, pos, Level::Term) == done);
    assert(parse_operand(tokens, pos, Level::Comparison) == done);
    assert(parse_level_rest(tokens, end, Level::Comparison, e) == done);
    assert(parse_level(tokens, pos, Level::Comparison) == done);
    assert(parse_operand(tokens, pos, Level::Equality) == done);
    assert(parse_level_rest(tokens, end, Level::Equality, e) == done);
    assert(parse_level(tokens, pos, Level::Equality) == done);
    assert(parse_assignment(tokens, pos) == done);
}

/// Where no unary expression is accepted, no expression is.
pub proof fn lemma_unary_rejected(tokens: Seq<TokenView>, pos: int)
    requires
        parse_unary(tokens, pos).result is Err,
    ensures
        parse_expression(tokens, pos).result is Err,
{
    reveal(parse_expression);
    assert(parse_operand(tokens, pos, Level::Factor).result is Err);
    assert(parse_level(tokens, pos, Level::Factor).result is Err);
    assert(parse_operand(tokens, pos, Level::Term).result is Err);
    assert(parse_level(tokens, pos, Level::Term).result is Err);
    assert(parse_operand(tokens, pos, Level::Comparison).result is Err);
    assert(parse_level(tokens, pos, Level::Comparison).result is Err);
    assert(parse_operand(tokens, pos, Level::Equality).result is Err);
    assert(parse_level(tokens, pos, Level::Equality).result is Err);
    assert(parse_assignment(tokens, pos).result is Err);
}

/// Whether the tokens of the shape stand at `pos`, and a token behind them
/// that can follow a form: `)`, the end of the input, or the start of a
/// form.
pub open spec fn stands_at(s: Shape, tokens: Seq<TokenView>, pos: int) -> bool {
    let end = pos + written(s).len();
    &&& 0 <= pos
    &&& end < tokens.len()
    &&& tokens.subrange(pos, end) == written(s)
    &&& {
        ||| tokens[end].token_type == TokenType::RIGHT_PAREN
        ||| tokens[end].token_type == TokenType::EOF
        ||| starts_form(tokens[end].token_type)
    }
}

/// What `unary` makes of the tokens of a printed form: the expression that
/// the form is read back as, or an error.
pub open spec fn read_as(s: Shape, tokens: Seq<TokenView>, pos: int) -> bool {
    if reads(s) {
        parse_unary(tokens, pos) == accepted(pos + written(s).len(), read_back(s))
    } else {
        parse_unary(tokens, pos).result is Err
    }
}

/// A word is read back as itself.
proof fn lemma_word_is_read(w: Seq<char>, tokens: Seq<TokenView>, pos: int)
    requires
        is_atom_word(w),
        stands_at(Shape::Word(w), tokens, pos),
    ensures
        read_as(Shape::Word(w), tokens, pos),
{
    let s = Shape::Word(w);
    assert(written(s).len() == 1);
    assert(written(s)[0] == word_token(w));
    assert(tokens[pos] == tokens.subrange(pos, pos + 1)[0]);
    assert(tokens[pos] == word_token(w));
    assert(!at_end(tokens, pos));
    let kind = word_kind(w);
    assert(tokens[pos].token_type == kind);
    assert(parse_primary(tokens, pos) == accepted(pos + 1, atom_of(w)));
    assert(parse_unary(tokens, pos) == parse_primary(tokens, pos));
    assert(reads(s));
    assert(read_back(s) == atom_of(w));
}

/// A unary operation is read back in parentheses, if its operand is read
/// back, and is rejected if its operand is.
proof fn lemma_unary_is_read(kind: TokenType, x: Shape, tokens: Seq<TokenView>, pos: int)
    requires
        kind == TokenType::MINUS || kind == TokenType::BANG,
        stands_at(Shape::Unary(kind, Box::new(x)), tokens, pos),
        read_as(x, tokens, pos + 2),
        written(x).len() >= 1,
    ensures
        read_as(Shape::Unary(kind, Box::new(x)), tokens, pos),
{
    reveal(parse_expression);
    let s = Shape::Unary(kind, Box::new(x));
    let n = written(x).len() as int;
    let all = written(s);
    assert(all.len() == n + 3);
    let sub = tokens.subrange(pos, pos + n + 3);
    assert(tokens[pos] == sub[0]);
    assert(tokens[pos + 1] == sub[1]);
    assert(tokens[pos + n + 2] == sub[n + 2]);
    assert(all[0] == token(TokenType::LEFT_PAREN, "("@));
    assert(all[1] == token(kind, operator_text(kind)));
    assert(all[n + 2] == token(TokenType::RIGHT_PAREN, ")"@));
    let end = pos + 2 + n;
    if reads(x) {
        let operand = read_back(x);
        let negated = ExpressionView::Unary { operator: tokens[pos + 1], expr: Box::new(operand) };
        assert(parse_unary(tokens, pos + 2) == accepted(end, operand));
        assert(parse_unary(tokens, pos + 1) == accepted(end, negated));
        lemma_unary_alone(tokens, pos + 1, end, negated);
        assert(check(tokens, end, TokenType::RIGHT_PAREN));
        assert(parse_primary(tokens, pos) == accepted(
            end + 1,
            ExpressionView::Grouping { expr: Box::new(negated) },
        ));
    } else {
        assert(parse_unary(tokens, pos + 1).result is Err);
        lemma_unary_rejected(tokens, pos + 1);
        assert(parse_primary(tokens, pos).result is Err);
    }
}

/// The printed form of a binary operation is rejected.
proof fn lemma_binary_is_rejected(
    kind: TokenType,
    l: Shape,
    r: Shape,
    tokens: Seq<TokenView>,
    pos: int,
)
    requires
        is_binary_operator(kind),
        stands_at(Shape::Binary(kind, Box::new(l), Box::new(r)), tokens, pos),
        read_as(l, tokens, pos + 2),
        written(l).len() >= 1,
        written(r).len() >= 1,
        starts_form(written(r)[0].token_type),
    ensures
        read_as(Shape::Binary(kind, Box::new(l), Box::new(r)), tokens, pos),
{
    reveal(parse_expression);
    let s = Shape::Binary(kind, Box::new(l), Box::new(r));
    let n = written(l).len() as int;
    let m = written(r).len() as int;
    let all = written(s);
    assert(all.len() == n + m + 3);
    let sub = tokens.subrange(pos, pos + n + m + 3);
    assert(tokens[pos] == sub[0]);
    assert(tokens[pos + 1] == sub[1]);
    assert(tokens[pos + 2 + n] == sub[2 + n]);
    assert(all[0] == token(TokenType::LEFT_PAREN, "("@));
    assert(all[1] == token(kind, operator_text(kind)));
    assert(all[2 + n] == written(r)[0]);
    let end = pos + 2 + n;
    if kind == TokenType::MINUS {
        if reads(l) {
            let operand = read_back(l);
            let negated = ExpressionView::Unary {
                operator: tokens[pos + 1],
                expr: Box::new(operand),
            };
            assert(parse_unary(tokens, pos + 2) == accepted(end, operand));
            assert(parse_unary(tokens, pos + 1) == accepted(end, negated));
            lemma_unary_alone(tokens, pos + 1, end, negated);
            assert(!check(tokens, end, TokenType::RIGHT_PAREN));
            assert(parse_primary(tokens, pos).result is Err);
        } else {
            assert(parse_unary(tokens, pos + 1).result is Err);
            lemma_unary_rejected(tokens, pos + 1);
            assert(parse_primary(tokens, pos).result is Err);
        }
    } else {
        assert(parse_primary(tokens, pos + 1).result is Err);
        assert(parse_unary(tokens, pos + 1).result is Err);
        lemma_unary_rejected(tokens, pos + 1);
        assert(parse_primary(tokens, pos).result is Err);
    }
}

/// The printed form of an expression in parentheses is rejected.
proof fn lemma_group_is_rejected(x: Shape, tokens: Seq<TokenView>, pos: int)
    requires
        stands_at(Shape::Group(Box::new(x)), tokens, pos),
        written(x).len() >= 1,
        starts_form(written(x)[0].token_type),
    ensures
        read_as(Shape::Group(Box::new(x)), tokens, pos),
{
    reveal(parse_expression);
    lemma_group_is_a_name();
    let s = Shape::Group(Box::new(x));
    let n = written(x).len() as int;
    let all = written(s);
    assert(all.len() == n + 3);
    let sub = tokens.subrange(pos, pos + n + 3);
    assert(tokens[pos] == sub[0]);
    assert(tokens[pos + 1] == sub[1]);
    assert(tokens[pos + 2] == sub[2]);
    assert(all[0] == token(TokenType::LEFT_PAREN, "("@));
    assert(all[1] == word_token("group"@));
    assert(all[2] == written(x)[0]);
    let name = ExpressionView::Variable { variable: tokens[pos + 1] };
    assert(parse_primary(tokens, pos + 1) == accepted(pos + 2, name));
    assert(parse_unary(tokens, pos + 1) == accepted(pos + 2, name));
    lemma_unary_alone(tokens, pos + 1, pos + 2, name);
    assert(!check(tokens, pos + 2, TokenType::RIGHT_PAREN));
    assert(parse_primary(tokens, pos).result is Err);
}

/// What the parser makes of the tokens of a printed form, wherever they
/// stand: a word is read back as itself, a unary operation in parentheses
/// if its operand is read back, and every other form is rejected.
pub proof fn lemma_form_is_read(s: Shape, tokens: Seq<TokenView>, pos: int)
    requires
        well_shaped(s),
        stands_at(s, tokens, pos),
    ensures
        read_as(s, tokens, pos),
    decreases s,
{
    let end = pos + written(s).len();
    let sub = tokens.subrange(pos, end);
    match s {
        Shape::Word(w) => {
            lemma_word_is_read(w, tokens, pos);
        },
        Shape::Unary(kind, x) => {
            lemma_written_starts_a_form(*x);
            let n = written(*x).len() as int;
            assert(tokens.subrange(pos + 2, pos + 2 + n) =~= sub.subrange(2, 2 + n));
            assert(sub.subrange(2, 2 + n) =~= written(*x));
            assert(tokens[pos + 2 + n] == sub[2 + n]);
            assert(written(s)[2 + n] == token(TokenType::RIGHT_PAREN, ")"@));
            lemma_form_is_read(*x, tokens, pos + 2);
            lemma_unary_is_read(kind, *x, tokens, pos);
        },
        Shape::Binary(kind, l, r) => {
            lemma_written_starts_a_form(*l);
            lemma_written_starts_a_form(*r);
            let n = written(*l).len() as int;
            assert(tokens.subrange(pos + 2, pos + 2 + n) =~= sub.subrange(2, 2 + n));
            assert(sub.subrange(2, 2 + n) =~= written(*l));
            assert(tokens[pos + 2 + n] == sub[2 + n]);
            assert(written(s)[2 + n] == written(*r)[0]);
            lemma_form_is_read(*l, tokens, pos + 2);
            lemma_binary_is_rejected(kind, *l, *r, tokens, pos);
        },
        Shape::Group(x) => {
            lemma_written_starts_a_form(*x);
            lemma_group_is_rejected(*x, tokens, pos);
        },
    }
}

/// The scanner reads the printed form of a shape as the tokens that the
/// form is made of and the end of the input, without error.
pub proof fn lemma_form_stream(s: Shape)
    requires
        well_shaped(s),
    ensures
        scanned_tokens(text(s)) == written(s) + seq![eof_token(1)],
        scanned_errors(text(s)) == Seq::<LexError>::empty(),
{
    let nothing = Seq::<char>::empty();
    lemma_form_scans(s, nothing);
    assert(text(s) + nothing =~= text(s));
    assert(tokens_from(nothing, 0, 1) == seq![eof_token(1)]);
    assert(errors_from(nothing, 0, 1) == Seq::<LexError>::empty());
}

/// What the `parse` stage makes of the printed form of a shape. Where the
/// form is read back, the stage prints the expression that it is read back
/// as. Where it is not, the stage ends with exit code 65 and prints
/// nothing.
pub proof fn law_form_read_back(s: Shape)
    requires
        well_shaped(s),
    ensures
        reads(s) ==> parse_report(text(s)) == (ReportView {
            stdout: prefix_form(read_back(s)),
            stderr: Seq::empty(),
            exit_code: 0,
        }),
        !reads(s) ==> parse_report(text(s)).exit_code == 65 && parse_report(text(s)).stdout
            == Seq::<FragmentView>::empty(),
{
    lemma_form_stream(s);
    lemma_written_starts_a_form(s);
    let tokens = scanned_tokens(text(s));
    let n = written(s).len() as int;
    assert(tokens.len() == n + 1);
    assert(tokens.subrange(0, n) =~= written(s));
    assert(tokens[n] == eof_token(1));
    assert(tokens[0] == written(s)[0]);
    lemma_form_is_read(s, tokens, 0);
    assert(!at_end(tokens, 0));
    if reads(s) {
        let e = read_back(s);
        lemma_unary_alone(tokens, 0, n, e);
        let rest = parse_expressions(tokens, n);
        assert(rest == ParsedItems::<ExpressionView> { pos: n, items: Seq::empty(), error: None });
        let all = parse_expressions(tokens, 0);
        assert(all.items =~= seq![e]);
        assert(all.error is None);
        let items = seq![e];
        assert(items.drop_last() =~= Seq::<ExpressionView>::empty());
        assert(prefix_forms(items.drop_last()) =~= Seq::<FragmentView>::empty());
        assert(prefix_forms(items) =~= prefix_form(e));
        assert(parse_report(text(s)).stdout == prefix_form(e));
    } else {
        lemma_unary_rejected(tokens, 0);
        assert(parse_expressions(tokens, 0).error is Some);
    }
}

/// A word is printed as it is read: the printed form of the expression that
/// a name, `true`, `false` or `nil` is read as is that word.
pub proof fn lemma_atom_is_printed_as_its_word(w: Seq<char>)
    requires
        is_atom_word(w),
    ensures
        prefix_form(atom_of(w)) == seq![FragmentView::Text(w)],
{
    assert(prefix_form(atom_of(w)) =~= seq![FragmentView::Text(w)]);
}

/// Printing, reading back what was printed and printing again changes
/// nothing: where the printed form of a shape is read at all, what is then
/// printed is that form again. This holds of every shape but a unary
/// operation whose printed form is read back; it holds of words because they
/// are read back as themselves, and of every other shape because its
/// printed form is rejected.
pub proof fn law_reprinting_changes_nothing(s: Shape)
    requires
        well_shaped(s),
        !(s is Unary && reads(s)),
    ensures
        parse_report(text(s)).exit_code == 65 || parse_report(text(s)) == printed_alone(text(s)),
{
    law_form_read_back(s);
    match s {
        Shape::Word(w) => {
            lemma_atom_is_printed_as_its_word(w);
        },
        _ => {},
    }
}

/// The text of a fragment that is text; a number has none here.
pub open spec fn fragment_text(f: FragmentView) -> Seq<char> {
    match f {
        FragmentView::Text(s) => s,
        FragmentView::Number(_, _) => Seq::empty(),
    }
}

/// The text that fragments of text make together.
pub open spec fn joined(fragments: Seq<FragmentView>) -> Seq<char>
    decreases fragments.len(),
{
    if fragments.len() == 0 {
        Seq::empty()
    } else {
        fragment_text(fragments[0]) + joined(fragments.drop_first())
    }
}

/// The text of fragments behind one another is their texts behind one
/// another.
pub proof fn lemma_joined_joins(a: Seq<FragmentView>, b: Seq<FragmentView>)
    ensures
        joined(a + b) == joined(a) + joined(b),
    decreases a.len(),
{
    if a.len() == 0 {
        assert(a + b =~= b);
        assert(joined(a) + joined(b) =~= joined(b));
    } else {
        lemma_joined_joins(a.drop_first(), b);
        assert((a + b).drop_first() =~= a.drop_first() + b);
        assert((a + b)[0] == a[0]);
        lemma_join(fragment_text(a[0]), joined(a.drop_first()), joined(b));
    }
}

/// The text of one fragment of text.
pub proof fn lemma_joined_one(s: Seq<char>)
    ensures
        joined(seq![FragmentView::Text(s)]) == s,
{
    let one = seq![FragmentView::Text(s)];
    assert(one.drop_first() =~= Seq::<FragmentView>::empty());
    assert(joined(one.drop_first()) =~= Seq::<char>::empty());
    assert(s + Seq::<char>::empty() =~= s);
}

/// Printing, reading back and printing again does change a unary operation
/// whose printed form is read back: the form starts with `(` and `-` or
/// `!`, and what is printed the second time starts with `(group `.
pub proof fn law_reprinting_changes_unary(s: Shape)
    requires
        well_shaped(s),
        s is Unary,
        reads(s),
    ensures
        parse_report(text(s)).exit_code == 0,
        joined(parse_report(text(s)).stdout).len() > 1,
        joined(parse_report(text(s)).stdout)[1] == 'g',
        text(s)[1] == '-' || text(s)[1] == '!',
{
    reveal_strlit("(group ");
    reveal_strlit("(");
    reveal_strlit("-");
    reveal_strlit("!");
    law_form_read_back(s);
    let printed = prefix_form(read_back(s));
    let head = seq![FragmentView::Text("(group "@)];
    match s {
        Shape::Unary(kind, x) => {
            let inner = ExpressionView::Unary {
                operator: token(kind, operator_text(kind)),
                expr: Box::new(read_back(*x)),
            };
            let tail = prefix_form(inner) + seq![FragmentView::Text(")"@)];
            assert(printed =~= head + tail);
            lemma_joined_joins(head, tail);
            lemma_joined_one("(group "@);
            assert(joined(printed) == "(group "@ + joined(tail));
            assert(text(s)[1] == operator_text(kind)[0]);
        },
        _ => {},
    }
}

/// The word that a literal is printed as, where it is printed as a word.
pub open spec fn literal_word(v: LiteralView) -> Seq<char> {
    match v {
        LiteralView::Bool(b) => if b {
            "true"@
        } else {
            "false"@
        },
        LiteralView::Nil => "nil"@,
        _ => Seq::empty(),
    }
}

/// Whether an expression is written with names and the words `true`,
/// `false` and `nil` alone, as the parser builds such an expression from
/// the tokens of the scanner: it holds no number and no string, its names
/// are identifiers, and its operators have their text as lexeme. What an
/// assignment assigns is not printed and can be anything.
pub open spec fn is_symbolic(e: ExpressionView) -> bool
    decreases e,
{
    match e {
        ExpressionView::Literal(v) => v is Bool || v is Nil,
        ExpressionView::Variable { variable } => is_identifier(variable.lexeme),
        ExpressionView::Assignment { name, value } => is_identifier(name.lexeme),
        ExpressionView::Unary { operator, expr } => {
            &&& operator.token_type == TokenType::MINUS || operator.token_type == TokenType::BANG
            &&& operator.lexeme == operator_text(operator.token_type)
            &&& is_symbolic(*expr)
        },
        ExpressionView::Binary { operator, left_expr, right_expr } => {
            &&& is_binary_operator(operator.token_type)
            &&& operator.lexeme == operator_text(operator.token_type)
            &&& is_symbolic(*left_expr)
            &&& is_symbolic(*right_expr)
        },
        ExpressionView::Grouping { expr } => is_symbolic(*expr),
    }
}

/// The shape of an expression.
pub open spec fn shape_of(e: ExpressionView) -> Shape
    decreases e,
{
    match e {
        ExpressionView::Literal(v) => Shape::Word(literal_word(v)),
        ExpressionView::Variable { variable } => Shape::Word(variable.lexeme),
        ExpressionView::Assignment { name, value } => Shape::Word(name.lexeme),
        ExpressionView::Unary { operator, expr } => Shape::Unary(
            operator.token_type,
            Box::new(shape_of(*expr)),
        ),
        ExpressionView::Binary { operator, left_expr, right_expr } => Shape::Binary(
            operator.token_type,
            Box::new(shape_of(*left_expr)),
            Box::new(shape_of(*right_expr)),
        ),
        ExpressionView::Grouping { expr } => Shape::Group(Box::new(shape_of(*expr))),
    }
}

/// The words `true`, `false` and `nil` are read as the three literals.
pub proof fn lemma_literal_words()
    ensures
        is_word("true"@) && word_kind("true"@) == TokenType::TRUE,
        is_word("false"@) && word_kind("false"@) == TokenType::FALSE,
        is_word("nil"@) && word_kind("nil"@) == TokenType::NIL,
{
    reveal_strlit("and");
    reveal_strlit("class");
    reveal_strlit("else");
    reveal_strlit("false");
    reveal_strlit("for");
    reveal_strlit("fun");
    reveal_strlit("if");
    reveal_strlit("nil");
    reveal_strlit("or");
    reveal_strlit("print");
    reveal_strlit("return");
    reveal_strlit("super");
    reveal_strlit("this");
    reveal_strlit("true");
    assert(word_kind("true"@) == TokenType::TRUE) by {
        assert("true"@[0] == 't');
        assert("else"@[0] == 'e');
        assert("this"@[1] == 'h');
        assert("true"@[1] == 'r');
    }
    assert(word_kind("false"@) == TokenType::FALSE) by {
        assert("false"@[0] == 'f');
        assert("class"@[0] == 'c');
    }
    assert(word_kind("nil"@) == TokenType::NIL) by {
        assert("nil"@[0] == 'n');
        assert("and"@[0] == 'a');
        assert("for"@[0] == 'f');
        assert("fun"@[0] == 'f');
    }
}

/// The printed form of a symbolic expression is the text of its shape, and
/// the shape is well shaped.
pub proof fn lemma_printed_form_is_text(e: ExpressionView)
    requires
        is_symbolic(e),
    ensures
        well_shaped(shape_of(e)),
        joined(prefix_form(e)) == text(shape_of(e)),
    decreases e,
{
    let close = seq![FragmentView::Text(")"@)];
    match e {
        ExpressionView::Literal(v) => {
            lemma_literal_words();
            lemma_joined_one(literal_word(v));
            assert(prefix_form(e) =~= seq![FragmentView::Text(literal_word(v))]);
        },
        ExpressionView::Variable { variable } => {
            lemma_joined_one(variable.lexeme);
        },
        ExpressionView::Assignment { name, value } => {
            lemma_joined_one(name.lexeme);
        },
        ExpressionView::Unary { operator, expr } => {
            lemma_printed_form_is_text(*expr);
            let head = "("@ + operator.lexeme + " "@;
            let open = seq![FragmentView::Text(head)];
            lemma_joined_joins(open + prefix_form(*expr), close);
            lemma_joined_joins(open, prefix_form(*expr));
            lemma_joined_one(head);
            lemma_joined_one(")"@);
        },
        ExpressionView::Binary { operator, left_expr, right_expr } => {
            lemma_printed_form_is_text(*left_expr);
            lemma_printed_form_is_text(*right_expr);
            let head = "("@ + operator.lexeme + " "@;
            let open = seq![FragmentView::Text(head)];
            let blank = seq![FragmentView::Text(" "@)];
            let l = prefix_form(*left_expr);
            let r = prefix_form(*right_expr);
            lemma_joined_joins(open + l + blank + r, close);
            lemma_joined_joins(open + l + blank, r);
            lemma_joined_joins(open + l, blank);
            lemma_joined_joins(open, l);
            lemma_joined_one(head);
            lemma_joined_one(" "@);
            lemma_joined_one(")"@);
        },
        ExpressionView::Grouping { expr } => {
            lemma_printed_form_is_text(*expr);
            reveal_strlit("(group ");
            reveal_strlit("(");
            reveal_strlit("group");
            reveal_strlit(" ");
            assert("(group "@ =~= "("@ + "group"@ + " "@);
            let open = seq![FragmentView::Text("(group "@)];
            lemma_joined_joins(open + prefix_form(*expr), close);
            lemma_joined_joins(open, prefix_form(*expr));
            lemma_joined_one("(group "@);
            lemma_joined_one(")"@);
        },
    }
}

/// Printing an expression, reading back what was printed and printing
/// again changes nothing, for the expressions that are written with names
/// and the words `true`, `false` and `nil` alone: where the printed form of
/// such an expression is read at all, what is then printed is that form
/// again, character for character.
///
/// Left out are the unary operations whose printed form is read back, and
/// only they: their form is read as an operation in parentheses and printed
/// with `group` in front, as `law_reprinting_changes_unary` says. The
/// source `-a` is one.
pub proof fn law_reprinted_expression(e: ExpressionView)
    requires
        is_symbolic(e),
        !(e is Unary && reads(shape_of(e))),
    ensures
        parse_report(joined(prefix_form(e))).exit_code == 65 || parse_report(
            joined(prefix_form(e)),
        ) == printed_alone(joined(prefix_form(e))),
{
    lemma_printed_form_is_text(e);
    law_reprinting_changes_nothing(shape_of(e));
}

/// Whether a token is as the scanner makes it, as far as printing shows:
/// an operator has its text as lexeme, and the lexeme of a name is an
/// identifier.
pub open spec fn is_well_lexed(t: TokenView) -> bool {
    &&& has_its_text(t)
    &&& t.token_type == TokenType::IDENTIFIER ==> is_identifier(t.lexeme)
}

/// Every token that a step of the scanner leaves is well lexed.
proof fn lemma_step_lexes_well(s: Seq<char>, i: int, line: usize)
    requires
        0 <= i < s.len(),
    ensures
        scan_step(s, i, line).token matches Some(t) ==> is_well_lexed(t),
{
    lemma_step_gives_operator_its_text(s, i, line);
    crate::tokenizer::lemma_run_end(s, i, CharClass::AlphaNumeric);
    let end = run_end(s, i, CharClass::AlphaNumeric);
    let word = s.subrange(i, end);
    if crate::tokenizer::is_alpha_char(s[i]) {
        assert(end > i);
        assert(word[0] == s[i]);
        assert forall|j: int| 0 <= j < word.len() implies in_class(
            CharClass::AlphaNumeric,
            #[trigger] word[j],
        ) by {
            assert(word[j] == s[i + j]);
        }
        assert(is_word(word));
    }
}

/// Every token of the stream of a source text is well lexed.
pub proof fn lemma_stream_is_well_lexed(s: Seq<char>, i: int, line: usize)
    ensures
        forall|k: int|
            0 <= k < tokens_from(s, i, line).len() ==> is_well_lexed(
                #[trigger] tokens_from(s, i, line)[k],
            ),
    decreases s.len() - i,
{
    if 0 <= i < s.len() {
        let step = scan_step(s, i, line);
        if i < step.next <= s.len() {
            lemma_stream_is_well_lexed(s, step.next, step.line);
            lemma_step_lexes_well(s, i, line);
            let rest = tokens_from(s, step.next, step.line);
            match step.token {
                Some(t) => {
                    let all = seq![t] + rest;
                    assert forall|k: int| 0 <= k < all.len() implies is_well_lexed(
                        #[trigger] all[k],
                    ) by {
                        if k > 0 {
                            assert(all[k] == rest[k - 1]);
                        }
                    }
                },
                None => {},
            }
        } else {
            assert(is_well_lexed(eof_token(line)));
        }
    } else {
        assert(is_well_lexed(eof_token(line)));
    }
}

/// Whether no number and no string is printed with the expression.
pub open spec fn prints_no_literal_text(e: ExpressionView) -> bool
    decreases e,
{
    match e {
        ExpressionView::Literal(v) => v is Bool || v is Nil,
        ExpressionView::Variable { variable } => true,
        ExpressionView::Assignment { name, value } => true,
        ExpressionView::Unary { operator, expr } => prints_no_literal_text(*expr),
        ExpressionView::Binary { operator, left_expr, right_expr } => prints_no_literal_text(
            *left_expr,
        ) && prints_no_literal_text(*right_expr),
        ExpressionView::Grouping { expr } => prints_no_literal_text(*expr),
    }
}

/// Whether every token of the sequence is well lexed.
pub open spec fn all_well_lexed(toks: Seq<TokenView>) -> bool {
    forall|k: int| 0 <= k < toks.len() ==> is_well_lexed(#[trigger] toks[k])
}

/// Part of a well-lexed sequence is well lexed.
proof fn lemma_part_is_well_lexed(toks: Seq<TokenView>, from: int, to: int)
    requires
        all_well_lexed(toks),
        0 <= from <= to <= toks.len(),
    ensures
        all_well_lexed(toks.subrange(from, to)),
{
    let part = toks.subrange(from, to);
    assert forall|k: int| 0 <= k < part.len() implies is_well_lexed(#[trigger] part[k]) by {
        assert(part[k] == toks[from + k]);
    }
}

/// An expression that the grammar writes with well-lexed tokens, and with
/// which no number and no string is printed, is symbolic.
pub proof fn lemma_derived_is_symbolic(e: ExpressionView, toks: Seq<TokenView>, rule: Rule)
    requires
        derives(e, toks, rule),
        all_well_lexed(toks),
        prints_no_literal_text(e),
    ensures
        is_symbolic(e),
    decreases e, rule_rank(rule),
{
    reveal_strlit("-");
    reveal_strlit("!");
    match rule {
        Rule::Primary => {
            match e {
                ExpressionView::Grouping { expr } => {
                    lemma_part_is_well_lexed(toks, 1, toks.len() - 1);
                    lemma_derived_is_symbolic(
                        *expr,
                        toks.subrange(1, toks.len() - 1),
                        Rule::Assignment,
                    );
                },
                ExpressionView::Variable { variable } => {
                    assert(toks[0] == variable);
                },
                _ => {},
            }
        },
        Rule::Unary => {
            match e {
                ExpressionView::Unary { operator, expr } => {
                    assert(is_well_lexed(toks[0]));
                    lemma_part_is_well_lexed(toks, 1, toks.len() as int);
                    lemma_derived_is_symbolic(
                        *expr,
                        toks.subrange(1, toks.len() as int),
                        Rule::Unary,
                    );
                },
                _ => {
                    lemma_derived_is_symbolic(e, toks, Rule::Primary);
                },
            }
        },
        Rule::Binary(level) => {
            let split = e matches ExpressionView::Binary { operator, left_expr, right_expr }
                && is_level_operator(level, operator.token_type);
            if split {
                let operator = e->Binary_operator;
                let left = *e->Binary_left_expr;
                let right = *e->Binary_right_expr;
                let k = choose|k: int|
                    {
                        &&& 0 <= k < toks.len()
                        &&& #[trigger] toks[k] == operator
                        &&& derives(left, toks.subrange(0, k), Rule::Binary(level))
                        &&& derives(
                            right,
                            toks.subrange(k + 1, toks.len() as int),
                            tighter(Rule::Binary(level)),
                        )
                    };
                assert(is_well_lexed(toks[k]));
                lemma_part_is_well_lexed(toks, 0, k);
                lemma_part_is_well_lexed(toks, k + 1, toks.len() as int);
                lemma_derived_is_symbolic(left, toks.subrange(0, k), Rule::Binary(level));
                lemma_derived_is_symbolic(
                    right,
                    toks.subrange(k + 1, toks.len() as int),
                    tighter(Rule::Binary(level)),
                );
                reveal_strlit("+");
                reveal_strlit("*");
                reveal_strlit("/");
                reveal_strlit("!=");
                reveal_strlit("==");
                reveal_strlit("<");
                reveal_strlit("<=");
                reveal_strlit(">");
                reveal_strlit(">=");
            } else {
                lemma_derived_is_symbolic(e, toks, tighter(rule));
            }
        },
        Rule::Assignment => {
            match e {
                ExpressionView::Assignment { name, value } => {
                    assert(is_well_lexed(toks[0]));
                },
                _ => {
                    lemma_derived_is_symbolic(e, toks, Rule::Binary(Level::Equality));
                },
            }
        },
    }
}

/// Printing an expression of a source, reading back what was printed and
/// printing again changes nothing, where no number and no string is printed
/// with the expression: if `e` is what the parser makes of the stream of a
/// source text, then where the printed form of `e` is read at all, what is
/// then printed is that form again, character for character.
///
/// Left out are the unary operations whose printed form is read back, and
/// only they. The source `-a` is one: it is printed as `(- a)`, which is
/// read as an operation in parentheses and printed as `(group (- a))`.
pub proof fn law_printing_is_idempotent(source: Seq<char>, e: ExpressionView, end: int)
    requires
        parse_expression(scanned_tokens(source), 0) == accepted(end, e),
        prints_no_literal_text(e),
        !(e is Unary && reads(shape_of(e))),
    ensures
        parse_report(joined(prefix_form(e))).exit_code == 65 || parse_report(
            joined(prefix_form(e)),
        ) == printed_alone(joined(prefix_form(e))),
{
    let tokens = scanned_tokens(source);
    lemma_expression_derives(tokens, 0);
    crate::grammar::lemma_expression_holds(tokens, 0);
    lemma_stream_is_well_lexed(source, 0, 1);
    lemma_part_is_well_lexed(tokens, 0, end);
    lemma_derived_is_symbolic(e, tokens.subrange(0, end), Rule::Assignment);
    law_reprinted_expression(e);
}

} // verus!
