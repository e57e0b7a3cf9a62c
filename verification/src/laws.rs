//! Laws of the language, proved from the definitions of the scanner, the
//! grammar, the evaluator and the environment. What comes of printing an
//! expression and reading back what was printed is settled in the module
//! `reprint`.

use vstd::prelude::*;
use crate::token::{TokenType, TokenView};
use crate::tokenizer::{
    scanned_tokens, scanned_errors, tokens_from, errors_from, scan_step, run_end, in_class,
    is_alpha_char, is_digit_char, word_kind, eof_token, CharClass, LexError,
    lemma_stream_ends_with_eof,
};
use crate::derivation::starts_expression;
use crate::grammar::{at_end, check};
use crate::expr::is_binary_operator;
use crate::grammar::{
    Level, ParsedItems, accepted, parse_primary, parse_unary, parse_operand, parse_level,
    parse_level_rest, parse_assignment, parse_expression, parse_expressions,
};
use crate::interpreter::{ReportView, parse_report, prefix_forms};
use crate::expr::prefix_form;
use crate::number::is_nan_bits;
use crate::error::RuntimeErrorView;
use crate::text::{FragmentView, end_of_line};
use crate::environment::{Scopes, lookup, assigned, defined, entered, exited};
use crate::expr::{
    ExpressionView, LiteralView, evaluate, unary_result, binary_result, truthy, values_equal,
    printed,
};
use crate::statement::{StatementView, Ran, execute, execute_from, execute_all};

verus! {

/// Whether `tokens` is a stream that `EOF` ends: `EOF` is its last token and
/// stands nowhere else in it.
pub open spec fn ends_with_eof(tokens: Seq<TokenView>) -> bool {
    &&& tokens.len() >= 1
    &&& tokens.last().token_type == TokenType::EOF
    &&& forall|i: int| 0 <= i < tokens.len() - 1 ==> (#[trigger] tokens[i]).token_type != TokenType::EOF
}

/// No step of the scanner leaves an `EOF` token behind.
proof fn lemma_step_token_is_not_eof(s: Seq<char>, i: int, line: usize)
    requires
        0 <= i < s.len(),
    ensures
        scan_step(s, i, line).token matches Some(t) ==> t.token_type != TokenType::EOF,
{
}

/// The stream of the rest of a text is a stream that `EOF` ends.
proof fn lemma_tokens_from_end_with_eof(s: Seq<char>, i: int, line: usize)
    ensures
        ends_with_eof(tokens_from(s, i, line)),
    decreases s.len() - i,
{
    if 0 <= i < s.len() {
        let step = scan_step(s, i, line);
        if i < step.next <= s.len() {
            lemma_tokens_from_end_with_eof(s, step.next, step.line);
            lemma_step_token_is_not_eof(s, i, line);
            let rest = tokens_from(s, step.next, step.line);
            match step.token {
                Some(t) => {
                    let all = seq![t] + rest;
                    assert(all.last() == rest.last());
                    assert forall|j: int| 0 <= j < all.len() - 1 implies (#[trigger] all[j]).token_type
                        != TokenType::EOF by {
                        if j > 0 {
                            assert(all[j] == rest[j - 1]);
                        }
                    }
                },
                None => {},
            }
        }
    }
}

/// Scanning any source text gives a stream that `EOF` ends, whether or not
/// the text holds lexical errors.
pub proof fn law_scan_ends_with_eof(source: Seq<char>)
    ensures
        ends_with_eof(scanned_tokens(source)),
{
    lemma_tokens_from_end_with_eof(source, 0, 1);
}

/// A `!` token.
pub open spec fn is_bang(t: TokenView) -> bool {
    t.token_type == TokenType::BANG
}

/// Negating a value twice gives its truthiness as a Boolean: `!!v` is `true`
/// for a truthy `v` and `false` for a falsey one, in every environment, and
/// evaluating it changes nothing.
pub proof fn law_double_negation(v: LiteralView, outer: TokenView, inner: TokenView, env: Scopes)
    requires
        is_bang(outer),
        is_bang(inner),
    ensures
        unary_result(TokenType::BANG, v) == Ok::<LiteralView, RuntimeErrorView>(
            LiteralView::Bool(!truthy(v)),
        ),
        evaluate(
            ExpressionView::Unary {
                operator: outer,
                expr: Box::new(
                    ExpressionView::Unary {
                        operator: inner,
                        expr: Box::new(ExpressionView::Literal(v)),
                    },
                ),
            },
            env,
        ).result == Ok::<LiteralView, RuntimeErrorView>(LiteralView::Bool(truthy(v))),
        evaluate(
            ExpressionView::Unary {
                operator: outer,
                expr: Box::new(
                    ExpressionView::Unary {
                        operator: inner,
                        expr: Box::new(ExpressionView::Literal(v)),
                    },
                ),
            },
            env,
        ).env == env,
{
    let literal = ExpressionView::Literal(v);
    let once = ExpressionView::Unary { operator: inner, expr: Box::new(literal) };
    let twice = ExpressionView::Unary { operator: outer, expr: Box::new(once) };
    assert(evaluate(literal, env).result == Ok::<LiteralView, RuntimeErrorView>(v));
    assert(evaluate(once, env).result == Ok::<LiteralView, RuntimeErrorView>(
        LiteralView::Bool(!truthy(v)),
    ));
    assert(evaluate(twice, env).result == Ok::<LiteralView, RuntimeErrorView>(
        LiteralView::Bool(truthy(v)),
    ));
}

/// Whether a value is a number that is a NaN.
pub open spec fn is_nan_value(v: LiteralView) -> bool {
    v matches LiteralView::Number(n) && is_nan_bits(n)
}

/// Every value that is no NaN equals itself: `v == v` is `true` and
/// `v != v` is `false`.
pub proof fn law_equality_reflexive(v: LiteralView)
    requires
        !is_nan_value(v),
    ensures
        values_equal(v, v),
        binary_result(TokenType::EQUAL_EQUAL, v, v) == Ok::<LiteralView, RuntimeErrorView>(
            LiteralView::Bool(true),
        ),
        binary_result(TokenType::BANG_EQUAL, v, v) == Ok::<LiteralView, RuntimeErrorView>(
            LiteralView::Bool(false),
        ),
{
}

/// A NaN does not equal itself: `v == v` is `false` and `v != v` is `true`.
pub proof fn law_nan_differs_from_itself(n: u64)
    requires
        is_nan_bits(n),
    ensures
        !values_equal(LiteralView::Number(n), LiteralView::Number(n)),
        binary_result(TokenType::EQUAL_EQUAL, LiteralView::Number(n), LiteralView::Number(n))
            == Ok::<LiteralView, RuntimeErrorView>(LiteralView::Bool(false)),
        binary_result(TokenType::BANG_EQUAL, LiteralView::Number(n), LiteralView::Number(n))
            == Ok::<LiteralView, RuntimeErrorView>(LiteralView::Bool(true)),
{
}

/// Equality of values is symmetric.
pub proof fn law_equality_symmetric(a: LiteralView, b: LiteralView)
    ensures
        values_equal(a, b) == values_equal(b, a),
{
}

/// The program `var x = A; { var x = B; } print x;`.
pub open spec fn shadowing_program(
    outer: TokenView,
    inner: TokenView,
    read: TokenView,
    a: LiteralView,
    b: LiteralView,
) -> Seq<StatementView> {
    seq![
        StatementView::DeclStatement { name: outer, value: Some(ExpressionView::Literal(a)) },
        StatementView::BlockStatement(
            seq![
                StatementView::DeclStatement {
                    name: inner,
                    value: Some(ExpressionView::Literal(b)),
                },
            ],
        ),
        StatementView::PrintStatement(ExpressionView::Variable { variable: read }),
    ]
}

/// Block scoping: a declaration in a block shadows the outer one only inside
/// the block. For all literals `A` and `B` and every name `x`, the program
/// `var x = A; { var x = B; } print x;` prints `A` and ends without error,
/// in whatever environment it starts.
pub proof fn law_block_scoping(
    outer: TokenView,
    inner: TokenView,
    read: TokenView,
    a: LiteralView,
    b: LiteralView,
    env: Scopes,
)
    requires
        env.len() >= 1,
        inner.lexeme == outer.lexeme,
        read.lexeme == outer.lexeme,
    ensures
        execute_all(shadowing_program(outer, inner, read, a, b), env).output == seq![
            printed(a),
            end_of_line(),
        ],
        execute_all(shadowing_program(outer, inner, read, a, b), env).error is None,
        execute_all(shadowing_program(outer, inner, read, a, b), env).env == defined(
            env,
            outer.lexeme,
            a,
        ),
{
    let x = outer.lexeme;
    let program = shadowing_program(outer, inner, read, a, b);
    let body = seq![
        StatementView::DeclStatement { name: inner, value: Some(ExpressionView::Literal(b)) },
    ];
    // var x = A;
    let env1 = defined(env, x, a);
    let first = execute(program[0], env);
    assert(first == Ran { env: env1, output: Seq::empty(), error: None });
    // { var x = B; }
    let inside = entered(env1);
    let declared = defined(inside, x, b);
    let in_block = execute(body[0], inside);
    assert(in_block == Ran { env: declared, output: Seq::empty(), error: None });
    let after_body = execute_from(body, 1, declared);
    assert(after_body == Ran { env: declared, output: Seq::empty(), error: None });
    let whole_body = execute_from(body, 0, inside);
    assert(whole_body.env == declared);
    assert(whole_body.error is None);
    assert(whole_body.output =~= Seq::<FragmentView>::empty());
    assert(exited(declared) =~= env1);
    let second = execute(program[1], env1);
    assert(second.env == env1);
    assert(second.error is None);
    assert(second.output =~= Seq::<FragmentView>::empty());
    // print x;
    assert(lookup(env1, x) == Some(a));
    let third = execute(program[2], env1);
    assert(third == Ran { env: env1, output: seq![printed(a), end_of_line()], error: None });
    let tail3 = execute_from(program, 3, env1);
    assert(tail3 == Ran { env: env1, output: Seq::empty(), error: None });
    let tail2 = execute_from(program, 2, env1);
    assert(tail2.output =~= seq![printed(a), end_of_line()]);
    assert(tail2.env == env1 && tail2.error is None);
    let tail1 = execute_from(program, 1, env1);
    assert(tail1.output =~= seq![printed(a), end_of_line()]);
    assert(tail1.env == env1 && tail1.error is None);
    let tail0 = execute_from(program, 0, env);
    assert(tail0.output =~= seq![printed(a), end_of_line()]);
    assert(tail0.env == env1 && tail0.error is None);
}

/// A name is assigned to exactly where a scope binds it.
pub proof fn lemma_assigned_iff_bound(env: Scopes, name: Seq<char>, value: LiteralView)
    ensures
        assigned(env, name, value) is Some <==> lookup(env, name) is Some,
    decreases env.len(),
{
    if env.len() > 0 && !env[0].dom().contains(name) {
        lemma_assigned_iff_bound(env.drop_first(), name, value);
    }
}

/// An assignment binds no name: one that no scope binds before a value is
/// assigned to another name is bound by none after it.
proof fn lemma_assigned_binds_nothing(
    env: Scopes,
    target: Seq<char>,
    value: LiteralView,
    name: Seq<char>,
)
    requires
        lookup(env, name) is None,
        assigned(env, target, value) is Some,
    ensures
        lookup(assigned(env, target, value)->Some_0, name) is None,
    decreases env.len(),
{
    if env.len() > 0 {
        let after = assigned(env, target, value)->Some_0;
        if env[0].dom().contains(target) {
            assert(after.drop_first() =~= env.drop_first());
        } else {
            let rest = assigned(env.drop_first(), target, value)->Some_0;
            lemma_assigned_binds_nothing(env.drop_first(), target, value, name);
            assert(after.drop_first() =~= rest);
        }
    }
}

/// Evaluating an expression binds no name: one that no scope binds before
/// the evaluation is bound by none after it, whatever the expression
/// assigns and whether or not it fails.
pub proof fn lemma_evaluate_binds_nothing(e: ExpressionView, env: Scopes, name: Seq<char>)
    requires
        lookup(env, name) is None,
    ensures
        lookup(evaluate(e, env).env, name) is None,
    decreases e,
{
    match e {
        ExpressionView::Literal(_) => {},
        ExpressionView::Variable { .. } => {},
        ExpressionView::Grouping { expr } => {
            lemma_evaluate_binds_nothing(*expr, env, name);
        },
        ExpressionView::Unary { operator, expr } => {
            lemma_evaluate_binds_nothing(*expr, env, name);
        },
        ExpressionView::Assignment { name: target, value } => {
            lemma_evaluate_binds_nothing(*value, env, name);
            let right = evaluate(*value, env);
            if let Ok(v) = right.result {
                if assigned(right.env, target.lexeme, v) is Some {
                    lemma_assigned_binds_nothing(right.env, target.lexeme, v, name);
                }
            }
        },
        ExpressionView::Binary { operator, left_expr, right_expr } => {
            lemma_evaluate_binds_nothing(*left_expr, env, name);
            let left = evaluate(*left_expr, env);
            if left.result is Ok {
                lemma_evaluate_binds_nothing(*right_expr, left.env, name);
            }
        },
    }
}

/// Assignment is not declaration: assigning to a name that no scope binds
/// is an error that names it, and binds nothing. The value is evaluated
/// first, and where that fails, its error is the outcome.
pub proof fn law_assignment_needs_declaration(
    name: TokenView,
    value: ExpressionView,
    env: Scopes,
)
    requires
        lookup(env, name.lexeme) is None,
    ensures
        evaluate(ExpressionView::Assignment { name, value: Box::new(value) }, env).result is Err,
        evaluate(value, env).result is Ok ==> evaluate(
            ExpressionView::Assignment { name, value: Box::new(value) },
            env,
        ).result == Err::<LiteralView, RuntimeErrorView>(
            RuntimeErrorView::UndefinedVariable(name.lexeme),
        ),
        evaluate(value, env).result is Err ==> evaluate(
            ExpressionView::Assignment { name, value: Box::new(value) },
            env,
        ).result == evaluate(value, env).result,
        evaluate(ExpressionView::Assignment { name, value: Box::new(value) }, env).env
            == evaluate(value, env).env,
        lookup(
            evaluate(ExpressionView::Assignment { name, value: Box::new(value) }, env).env,
            name.lexeme,
        ) is None,
{
    let right = evaluate(value, env);
    lemma_evaluate_binds_nothing(value, env, name.lexeme);
    if let Ok(v) = right.result {
        lemma_assigned_iff_bound(right.env, name.lexeme, v);
    }
}

/// A declaration is read back: after `name` was declared with a value, a
/// lookup of it gives that value, and every other name is found as before.
pub proof fn law_define_then_lookup(
    env: Scopes,
    name: Seq<char>,
    value: LiteralView,
    other: Seq<char>,
)
    requires
        env.len() >= 1,
    ensures
        lookup(defined(env, name, value), name) == Some(value),
        other != name ==> lookup(defined(env, name, value), other) == lookup(env, other),
{
    let after = defined(env, name, value);
    assert(after.drop_first() =~= env.drop_first());
}

/// Entering a scope and leaving it again gives the environment back, and
/// what was declared inside is gone with the scope.
pub proof fn law_scope_is_released(env: Scopes, name: Seq<char>, value: LiteralView)
    ensures
        exited(entered(env)) == env,
        exited(defined(entered(env), name, value)) == env,
        lookup(entered(env), name) == lookup(env, name),
{
    assert(exited(entered(env)) =~= env);
    assert(exited(defined(entered(env), name, value)) =~= env);
    assert(entered(env).drop_first() =~= env);
}

/// Whether `word` is a word as the scanner reads one: it starts with a
/// letter or `_` and goes on with letters, digits and `_`.
pub open spec fn is_word(word: Seq<char>) -> bool {
    &&& word.len() > 0
    &&& is_alpha_char(word[0])
    &&& forall|i: int| 0 <= i < word.len() ==> in_class(CharClass::AlphaNumeric, #[trigger] word[i])
}

/// Whether `name` is a word that the scanner reads as an identifier: a word
/// that is no reserved word.
pub open spec fn is_identifier(name: Seq<char>) -> bool {
    is_word(name) && word_kind(name) == TokenType::IDENTIFIER
}

/// The token that the scanner makes of a word on the first line.
pub open spec fn word_token(word: Seq<char>) -> TokenView {
    TokenView { token_type: word_kind(word), lexeme: word, literal: None, line: 1 }
}

/// A run of characters that are all of the class ends where the text ends.
pub proof fn lemma_run_to_the_end(s: Seq<char>, i: int, class: CharClass)
    requires
        0 <= i <= s.len(),
        forall|j: int| i <= j < s.len() ==> in_class(class, #[trigger] s[j]),
    ensures
        run_end(s, i, class) == s.len(),
    decreases s.len() - i,
{
    if i < s.len() {
        lemma_run_to_the_end(s, i + 1, class);
    }
}

/// The scanner reads a word as one token, without error.
pub proof fn lemma_word_scans(word: Seq<char>)
    requires
        is_word(word),
    ensures
        scanned_tokens(word) == seq![word_token(word), eof_token(1)],
        scanned_errors(word) == Seq::<LexError>::empty(),
{
    lemma_run_to_the_end(word, 0, CharClass::AlphaNumeric);
    assert(word.subrange(0, word.len() as int) =~= word);
    let step = scan_step(word, 0, 1);
    assert(step.next == word.len());
    assert(step.line == 1);
    assert(step.token == Some(word_token(word)));
    assert(step.error is None);
    assert(tokens_from(word, word.len() as int, 1) == seq![eof_token(1)]);
    assert(errors_from(word, word.len() as int, 1) == Seq::<LexError>::empty());
    assert(tokens_from(word, 0, 1) == seq![word_token(word)] + seq![eof_token(1)]);
    assert(seq![word_token(word)] + seq![eof_token(1)] =~= seq![word_token(word), eof_token(1)]);
}

/// A primary that the end of the input follows is the whole input.
pub proof fn lemma_lone_primary_parses(tokens: Seq<TokenView>, e: ExpressionView)
    requires
        tokens.len() == 2,
        tokens[1].token_type == TokenType::EOF,
        parse_primary(tokens, 0) == accepted(1, e),
        tokens[0].token_type != TokenType::MINUS,
        tokens[0].token_type != TokenType::BANG,
    ensures
        parse_expressions(tokens, 0) == (ParsedItems { pos: 1, items: seq![e], error: None }),
{
    reveal(parse_expression);
    let done = accepted(1, e);
    assert(parse_unary(tokens, 0) == done);
    assert(parse_operand(tokens, 0, Level::Factor) == done);
    assert(parse_level_rest(tokens, 1, Level::Factor, e) == done);
    assert(parse_level(tokens, 0, Level::Factor) == done);
    assert(parse_operand(tokens, 0, Level::Term) == done);
    assert(parse_level_rest(tokens, 1, Level::Term, e) == done);
    assert(parse_level(tokens, 0, Level::Term) == done);
    assert(parse_operand(tokens, 0, Level::Comparison) == done);
    assert(parse_level_rest(tokens, 1, Level::Comparison, e) == done);
    assert(parse_level(tokens, 0, Level::Comparison) == done);
    assert(parse_operand(tokens, 0, Level::Equality) == done);
    assert(parse_level_rest(tokens, 1, Level::Equality, e) == done);
    assert(parse_level(tokens, 0, Level::Equality) == done);
    assert(parse_assignment(tokens, 0) == done);
    assert(parse_expression(tokens, 0) == done);
    let rest = parse_expressions(tokens, 1);
    assert(rest == ParsedItems::<ExpressionView> { pos: 1, items: Seq::empty(), error: None });
    assert(seq![e] + rest.items =~= seq![e]);
}

/// The report of the `parse` stage on a source that is one expression with
/// the printed form `form`.
pub open spec fn printed_alone(form: Seq<char>) -> ReportView {
    ReportView {
        stdout: seq![FragmentView::Text(form)],
        stderr: Seq::empty(),
        exit_code: 0,
    }
}

/// The `parse` stage prints a word that parses as the primary `e` as the
/// printed form of `e`.
proof fn lemma_word_is_printed(word: Seq<char>, e: ExpressionView)
    requires
        is_word(word),
        parse_primary(scanned_tokens(word), 0) == accepted(1, e),
        prefix_form(e).len() == 1,
    ensures
        parse_report(word).stdout == prefix_form(e),
        parse_report(word).stderr == Seq::<Seq<char>>::empty(),
        parse_report(word).exit_code == 0,
{
    lemma_word_scans(word);
    let tokens = scanned_tokens(word);
    lemma_lone_primary_parses(tokens, e);
    let items = seq![e];
    assert(items.drop_last() =~= Seq::<ExpressionView>::empty());
    assert(prefix_forms(items.drop_last()) =~= Seq::<FragmentView>::empty());
    assert(prefix_forms(items) =~= prefix_form(e));
}

/// The printed form of a name reads back as itself: an identifier parses as
/// a variable, and the printed form of that variable is the identifier. The
/// printed form of a variable, and of an assignment, is such a name; so
/// printing it, parsing what was printed and printing again changes nothing.
pub proof fn law_printed_name_reads_back(name: Seq<char>)
    requires
        is_identifier(name),
    ensures
        prefix_form(ExpressionView::Variable { variable: word_token(name) }) == seq![
            FragmentView::Text(name),
        ],
        parse_report(name) == printed_alone(name),
{
    let variable = ExpressionView::Variable { variable: word_token(name) };
    lemma_word_scans(name);
    lemma_word_is_printed(name, variable);
    assert(parse_report(name).stdout =~= printed_alone(name).stdout);
}

/// The printed forms of `true`, `false` and `nil` read back as themselves:
/// each parses as the literal that is printed so.
pub proof fn law_printed_keyword_literals_read_back()
    ensures
        parse_report("true"@) == printed_alone("true"@),
        parse_report("false"@) == printed_alone("false"@),
        parse_report("nil"@) == printed_alone("nil"@),
{
    reveal_strlit("and");
    reveal_strlit("class");
    reveal_strlit("else");
    reveal_strlit("false");
    reveal_strlit("for");
    reveal_strlit("fun");
    reveal_strlit("if");
    reveal_strlit("nil");
    reveal_strlit("or");
    reveal_strlit("print");
    reveal_strlit("return");
    reveal_strlit("super");
    reveal_strlit("this");
    reveal_strlit("true");
    assert(word_kind("true"@) == TokenType::TRUE) by {
        assert("true"@[0] == 't');
        assert("else"@[0] == 'e');
        assert("this"@[1] == 'h');
        assert("true"@[1] == 'r');
    }
    assert(word_kind("false"@) == TokenType::FALSE) by {
        assert("false"@[0] == 'f');
        assert("class"@[0] == 'c');
    }
    assert(word_kind("nil"@) == TokenType::NIL) by {
        assert("nil"@[0] == 'n');
        assert("and"@[0] == 'a');
        assert("for"@[0] == 'f');
        assert("fun"@[0] == 'f');
    }
    lemma_word_scans("true"@);
    lemma_word_is_printed("true"@, ExpressionView::Literal(LiteralView::Bool(true)));
    assert(parse_report("true"@).stdout =~= printed_alone("true"@).stdout);
    lemma_word_scans("false"@);
    lemma_word_is_printed("false"@, ExpressionView::Literal(LiteralView::Bool(false)));
    assert(parse_report("false"@).stdout =~= printed_alone("false"@).stdout);
    lemma_word_scans("nil"@);
    lemma_word_is_printed("nil"@, ExpressionView::Literal(LiteralView::Nil));
    assert(parse_report("nil"@).stdout =~= printed_alone("nil"@).stdout);
}

/// The text of an operator.
pub open spec fn operator_text(kind: TokenType) -> Seq<char> {
    match kind {
        TokenType::PLUS => "+"@,
        TokenType::MINUS => "-"@,
        TokenType::STAR => "*"@,
        TokenType::SLASH => "/"@,
        TokenType::BANG => "!"@,
        TokenType::BANG_EQUAL => "!="@,
        TokenType::EQUAL_EQUAL => "=="@,
        TokenType::LESS => "<"@,
        TokenType::LESS_EQUAL => "<="@,
        TokenType::GREATER => ">"@,
        TokenType::GREATER_EQUAL => ">="@,
        _ => Seq::empty(),
    }
}

/// No expression starts with a token that is neither a literal, a name,
/// `(`, `-` nor `!`.
pub proof fn lemma_no_expression_starts(tokens: Seq<TokenView>, pos: int)
    requires
        !starts_expression(tokens[pos].token_type) || at_end(tokens, pos),
    ensures
        parse_expression(tokens, pos).result is Err,
{
    reveal(parse_expression);
    assert(parse_primary(tokens, pos).result is Err);
    assert(parse_unary(tokens, pos).result is Err);
    assert(parse_operand(tokens, pos, Level::Factor).result is Err);
    assert(parse_level(tokens, pos, Level::Factor).result is Err);
    assert(parse_operand(tokens, pos, Level::Term).result is Err);
    assert(parse_level(tokens, pos, Level::Term).result is Err);
    assert(parse_operand(tokens, pos, Level::Comparison).result is Err);
    assert(parse_level(tokens, pos, Level::Comparison).result is Err);
    assert(parse_operand(tokens, pos, Level::Equality).result is Err);
    assert(parse_level(tokens, pos, Level::Equality).result is Err);
    assert(parse_assignment(tokens, pos).result is Err);
}

/// A source whose first token is `(` and whose primary at the start is
/// rejected is rejected as a whole.
pub proof fn lemma_rejected_primary_rejects_source(tokens: Seq<TokenView>)
    requires
        check(tokens, 0, TokenType::LEFT_PAREN),
        parse_primary(tokens, 0).result is Err,
    ensures
        parse_expressions(tokens, 0).error is Some,
{
    reveal(parse_expression);
    assert(parse_unary(tokens, 0).result is Err);
    assert(parse_operand(tokens, 0, Level::Factor).result is Err);
    assert(parse_level(tokens, 0, Level::Factor).result is Err);
    assert(parse_operand(tokens, 0, Level::Term).result is Err);
    assert(parse_level(tokens, 0, Level::Term).result is Err);
    assert(parse_operand(tokens, 0, Level::Comparison).result is Err);
    assert(parse_level(tokens, 0, Level::Comparison).result is Err);
    assert(parse_operand(tokens, 0, Level::Equality).result is Err);
    assert(parse_level(tokens, 0, Level::Equality).result is Err);
    assert(parse_assignment(tokens, 0).result is Err);
    assert(parse_expression(tokens, 0).result is Err);
}

/// The scanner reads a `(` at the start of a text as a token and goes on
/// behind it.
proof fn lemma_parenthesis_scans(p: Seq<char>)
    requires
        p.len() >= 1,
        p[0] == '(',
    ensures
        scanned_tokens(p).len() >= 2,
        scanned_tokens(p)[0].token_type == TokenType::LEFT_PAREN,
        scanned_tokens(p).subrange(1, scanned_tokens(p).len() as int) == tokens_from(p, 1, 1),
        scanned_errors(p) == errors_from(p, 1, 1),
{
    let step = scan_step(p, 0, 1);
    assert(step.next == 1);
    assert(step.line == 1);
    assert(step.token is Some);
    assert(step.error is None);
    lemma_stream_ends_with_eof(p, 1, 1);
    let rest = tokens_from(p, 1, 1);
    let all = seq![step.token->0] + rest;
    assert(scanned_tokens(p) == all);
    assert(all.subrange(1, all.len() as int) =~= rest);
}

/// The report of the `parse` stage on a text whose tokens start with `(`
/// and a token that starts no expression: the text is rejected.
proof fn lemma_operator_in_front_is_rejected(p: Seq<char>)
    requires
        p.len() >= 1,
        p[0] == '(',
        !starts_expression(tokens_from(p, 1, 1)[0].token_type),
    ensures
        parse_report(p).exit_code == 65,
{
    reveal(parse_expression);
    lemma_parenthesis_scans(p);
    lemma_stream_ends_with_eof(p, 1, 1);
    let tokens = scanned_tokens(p);
    assert(tokens[1] == tokens.subrange(1, tokens.len() as int)[0]);
    if scanned_errors(p).len() == 0 {
        lemma_no_expression_starts(tokens, 1);
        assert(check(tokens, 0, TokenType::LEFT_PAREN));
        assert(parse_primary(tokens, 0).result is Err);
        lemma_rejected_primary_rejects_source(tokens);
    }
}

/// The printed form of a binary operation whose operator is not `-` is not
/// read back: it starts with `(` and the operator, and no expression starts
/// with such an operator. So whatever the operands are, printing the
/// operation and parsing what was printed ends with exit code 65, and there
/// is nothing to print again.
pub proof fn law_printed_operation_is_not_read(kind: TokenType, operands: Seq<char>)
    requires
        is_binary_operator(kind),
        kind != TokenType::MINUS,
    ensures
        parse_report("("@ + operator_text(kind) + " "@ + operands).exit_code == 65,
{
    reveal_strlit("(");
    reveal_strlit(" ");
    reveal_strlit("+");
    reveal_strlit("*");
    reveal_strlit("/");
    reveal_strlit("!=");
    reveal_strlit("==");
    reveal_strlit("<");
    reveal_strlit("<=");
    reveal_strlit(">");
    reveal_strlit(">=");
    let p = "("@ + operator_text(kind) + " "@ + operands;
    assert(p[0] == '(');
    let step = scan_step(p, 1, 1);
    let long = kind == TokenType::BANG_EQUAL || kind == TokenType::EQUAL_EQUAL || kind
        == TokenType::LESS_EQUAL || kind == TokenType::GREATER_EQUAL;
    if long {
        assert(p[1] == operator_text(kind)[0]);
        assert(p[2] == '=');
        assert(p[3] == ' ');
        assert(step.next == 3);
    } else {
        assert(p[1] == operator_text(kind)[0]);
        assert(p[2] == ' ');
        assert(step.next == 2);
    }
    assert(step.token is Some);
    assert(step.token->0.token_type == kind);
    lemma_stream_ends_with_eof(p, step.next, step.line);
    assert(tokens_from(p, 1, 1)[0] == step.token->0);
    lemma_operator_in_front_is_rejected(p);
}

/// A run of characters of a class that a character of no such class
/// follows ends in front of that character.
pub proof fn lemma_run_stops(s: Seq<char>, i: int, end: int, class: CharClass)
    requires
        0 <= i <= end < s.len(),
        forall|j: int| i <= j < end ==> in_class(class, #[trigger] s[j]),
        !in_class(class, s[end]),
    ensures
        run_end(s, i, class) == end,
    decreases end - i,
{
    if i < end {
        lemma_run_stops(s, i + 1, end, class);
    }
}

/// The word `group` is no reserved word.
pub proof fn lemma_group_is_a_name()
    ensures
        word_kind("group"@) == TokenType::IDENTIFIER,
        "group"@.len() == 5,
{
    reveal_strlit("group");
    reveal_strlit("and");
    reveal_strlit("class");
    reveal_strlit("else");
    reveal_strlit("false");
    reveal_strlit("for");
    reveal_strlit("fun");
    reveal_strlit("if");
    reveal_strlit("nil");
    reveal_strlit("or");
    reveal_strlit("print");
    reveal_strlit("return");
    reveal_strlit("super");
    reveal_strlit("this");
    reveal_strlit("true");
    reveal_strlit("var");
    reveal_strlit("while");
    assert("group"@[0] == 'g');
    assert("class"@[0] == 'c');
    assert("false"@[0] == 'f');
    assert("print"@[0] == 'p');
    assert("super"@[0] == 's');
    assert("while"@[0] == 'w');
}

/// The token that the scanner makes of a character that starts a printed
/// form is no operator, no `=` and no `)`.
proof fn lemma_form_starts_with_no_operator(p: Seq<char>, i: int, line: usize)
    requires
        0 <= i < p.len(),
        p[i] == '(' || is_alpha_char(p[i]) || is_digit_char(p[i]),
    ensures
        scan_step(p, i, line).token matches Some(t) && !is_binary_operator(t.token_type)
            && t.token_type != TokenType::EQUAL && t.token_type != TokenType::RIGHT_PAREN
            && t.token_type != TokenType::EOF,
{
}

/// The printed form of a parenthesized expression is not read back, where
/// what the parentheses hold is printed with a `(`, a letter or a digit in
/// front: `group` reads as a name, and in parentheses an operator or `)`
/// must follow a name. So printing the group and parsing what was printed
/// ends with exit code 65, and there is nothing to print again.
pub proof fn law_printed_group_is_not_read(inner: Seq<char>)
    requires
        inner.len() >= 1,
        inner[0] == '(' || is_alpha_char(inner[0]) || is_digit_char(inner[0]),
    ensures
        parse_report("(group "@ + inner).exit_code == 65,
{
    reveal(parse_expression);
    reveal_strlit("(group ");
    reveal_strlit("group");
    lemma_group_is_a_name();
    let p = "(group "@ + inner;
    assert(p[0] == '(');
    assert(p[7] == inner[0]);
    lemma_parenthesis_scans(p);
    // The name.
    lemma_run_stops(p, 1, 6, CharClass::AlphaNumeric);
    assert(p.subrange(1, 6) =~= "group"@);
    let name = scan_step(p, 1, 1);
    assert(name.next == 6);
    assert(name.line == 1);
    assert(name.error is None);
    assert(name.token is Some);
    assert(name.token->0.token_type == TokenType::IDENTIFIER);
    // The blank.
    let blank = scan_step(p, 6, 1);
    assert(blank.next == 7);
    assert(blank.line == 1);
    assert(blank.token is None);
    assert(blank.error is None);
    // The start of what the parentheses hold.
    lemma_form_starts_with_no_operator(p, 7, 1);
    let third = scan_step(p, 7, 1);
    crate::tokenizer::lemma_run_end(p, 7, CharClass::AlphaNumeric);
    crate::tokenizer::lemma_run_end(p, 7, CharClass::Digit);
    let whole = run_end(p, 7, CharClass::Digit);
    if whole + 1 < p.len() {
        crate::tokenizer::lemma_run_end(p, whole + 1, CharClass::Digit);
    }
    assert(7 < third.next <= p.len());
    lemma_stream_ends_with_eof(p, third.next, third.line);
    let from7 = tokens_from(p, 7, 1);
    assert(from7[0] == third.token->0);
    let from6 = tokens_from(p, 6, 1);
    assert(from6 == from7);
    let from1 = tokens_from(p, 1, 1);
    assert(from1 == seq![name.token->0] + from6);
    assert(from1[0] == name.token->0);
    assert(from1[1] == from7[0]);
    let tokens = scanned_tokens(p);
    let tail = tokens.subrange(1, tokens.len() as int);
    assert(tokens[1] == tail[0]);
    assert(tokens[2] == tail[1]);
    if scanned_errors(p).len() == 0 {
        let e = ExpressionView::Variable { variable: tokens[1] };
        let done = accepted(2, e);
        assert(!at_end(tokens, 2));
        assert(parse_primary(tokens, 1) == done);
        assert(parse_unary(tokens, 1) == done);
        assert(parse_operand(tokens, 1, Level::Factor) == done);
        assert(parse_level_rest(tokens, 2, Level::Factor, e) == done);
        assert(parse_level(tokens, 1, Level::Factor) == done);
        assert(parse_operand(tokens, 1, Level::Term) == done);
        assert(parse_level_rest(tokens, 2, Level::Term, e) == done);
        assert(parse_level(tokens, 1, Level::Term) == done);
        assert(parse_operand(tokens, 1, Level::Comparison) == done);
        assert(parse_level_rest(tokens, 2, Level::Comparison, e) == done);
        assert(parse_level(tokens, 1, Level::Comparison) == done);
        assert(parse_operand(tokens, 1, Level::Equality) == done);
        assert(parse_level_rest(tokens, 2, Level::Equality, e) == done);
        assert(parse_level(tokens, 1, Level::Equality) == done);
        assert(parse_assignment(tokens, 1) == done);
        assert(parse_expression(tokens, 1) == done);
        assert(check(tokens, 0, TokenType::LEFT_PAREN));
        assert(!check(tokens, 2, TokenType::RIGHT_PAREN));
        assert(parse_primary(tokens, 0).result is Err);
        lemma_rejected_primary_rejects_source(tokens);
    }
}

/// Whether a token that is an operator has the text of its operator as its
/// lexeme.
pub open spec fn has_its_text(t: TokenView) -> bool {
    operator_text(t.token_type).len() > 0 ==> t.lexeme == operator_text(t.token_type)
}

/// The scanner gives every operator the text of the operator as its lexeme.
pub proof fn lemma_step_gives_operator_its_text(s: Seq<char>, i: int, line: usize)
    requires
        0 <= i < s.len(),
    ensures
        scan_step(s, i, line).token matches Some(t) ==> has_its_text(t),
{
    reveal_strlit("+");
    reveal_strlit("-");
    reveal_strlit("*");
    reveal_strlit("/");
    reveal_strlit("!");
    reveal_strlit("!=");
    reveal_strlit("==");
    reveal_strlit("<");
    reveal_strlit("<=");
    reveal_strlit(">");
    reveal_strlit(">=");
    let c = s[i];
    assert(s.subrange(i, i + 1) =~= seq![c]);
    if i + 1 < s.len() {
        assert(s.subrange(i, i + 2) =~= seq![c, s[i + 1]]);
    }
    assert("+"@ =~= seq!['+']);
    assert("-"@ =~= seq!['-']);
    assert("*"@ =~= seq!['*']);
    assert("/"@ =~= seq!['/']);
    assert("!"@ =~= seq!['!']);
    assert("<"@ =~= seq!['<']);
    assert(">"@ =~= seq!['>']);
    assert("!="@ =~= seq!['!', '=']);
    assert("=="@ =~= seq!['=', '=']);
    assert("<="@ =~= seq!['<', '=']);
    assert(">="@ =~= seq!['>', '=']);
}

} // verus!
