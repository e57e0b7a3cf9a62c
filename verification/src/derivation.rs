//! The grammar as a relation between a tree and the tokens it is written
//! with, and the proof that the parser reads this grammar, all of it and
//! nothing else: whatever a rule builds is written, by that rule of the
//! grammar, with exactly the tokens that the rule read; and whatever the
//! grammar writes, the rule builds from its tokens.

use vstd::prelude::*;
use crate::token::{TokenType, TokenView};
use crate::expr::{ExpressionView, LiteralView, is_unary_operator, is_binary_operator};
use crate::statement::StatementView;
use crate::grammar::{
    Level, Parsed, accepted, check, operator_at, is_level_operator, level_rank, number_of, string_of,
    parse_primary, parse_unary, parse_operand, parse_level, parse_level_rest, parse_assignment,
    parse_expression, parse_statement, parse_block_items, parse_program, at_end, ParsedItems,
    lemma_primary_holds,
    lemma_statement_holds, lemma_block_items_hold, lemma_unary_holds, lemma_operand_holds,
    lemma_level_holds, lemma_assignment_holds, lemma_expression_holds,
};

verus! {

/// The rules that write an expression, the tightest first.
#[derive(Debug, PartialEq, Eq, Clone, Copy, Structural)]
pub enum Rule {
    /// `primary -> literal | "(" expression ")" | IDENTIFIER`
    Primary,
    /// `unary -> ( "-" | "!" ) unary | primary`
    Unary,
    /// A level of binary operators: `level -> level operator tighter | tighter`
    Binary(Level),
    /// `assignment -> IDENTIFIER "=" assignment | equality`; an expression
    /// is an assignment.
    Assignment,
}

/// How loosely a rule binds.
pub open spec fn rule_rank(rule: Rule) -> nat {
    match rule {
        Rule::Primary => 0,
        Rule::Unary => 1,
        Rule::Binary(level) => 1 + level_rank(level),
        Rule::Assignment => 6,
    }
}

/// The rule that binds next tighter.
pub open spec fn tighter(rule: Rule) -> Rule {
    match rule {
        Rule::Primary => Rule::Primary,
        Rule::Unary => Rule::Primary,
        Rule::Binary(Level::Factor) => Rule::Unary,
        Rule::Binary(Level::Term) => Rule::Binary(Level::Factor),
        Rule::Binary(Level::Comparison) => Rule::Binary(Level::Term),
        Rule::Binary(Level::Equality) => Rule::Binary(Level::Comparison),
        Rule::Assignment => Rule::Binary(Level::Equality),
    }
}

/// Whether the token `t` writes the literal `v`.
pub open spec fn writes_literal(t: TokenView, v: LiteralView) -> bool {
    match v {
        LiteralView::Bool(b) => t.token_type == if b {
            TokenType::TRUE
        } else {
            TokenType::FALSE
        },
        LiteralView::Nil => t.token_type == TokenType::NIL,
        LiteralView::String(s) => t.token_type == TokenType::STRING && string_of(t.literal) == s,
        LiteralView::Number(n) => t.token_type == TokenType::NUMBER && number_of(t.literal) == n,
    }
}

/// Whether the rule `rule` writes the expression `e` with the tokens `toks`.
pub open spec fn derives(e: ExpressionView, toks: Seq<TokenView>, rule: Rule) -> bool
    decreases e, rule_rank(rule),
{
    match rule {
        Rule::Primary => match e {
            ExpressionView::Literal(v) => toks.len() == 1 && writes_literal(toks[0], v),
            ExpressionView::Variable { variable } => toks == seq![variable] && variable.token_type
                == TokenType::IDENTIFIER,
            ExpressionView::Grouping { expr } => {
                &&& toks.len() >= 2
                &&& toks.first().token_type == TokenType::LEFT_PAREN
                &&& toks.last().token_type == TokenType::RIGHT_PAREN
                &&& derives(*expr, toks.subrange(1, toks.len() - 1), Rule::Assignment)
            },
            _ => false,
        },
        Rule::Unary => match e {
            ExpressionView::Unary { operator, expr } => {
                &&& toks.len() >= 1
                &&& toks[0] == operator
                &&& is_unary_operator(operator.token_type)
                &&& derives(*expr, toks.subrange(1, toks.len() as int), Rule::Unary)
            },
            _ => derives(e, toks, Rule::Primary),
        },
        Rule::Binary(level) => match e {
            ExpressionView::Binary { operator, left_expr, right_expr } => if is_level_operator(
                level,
                operator.token_type,
            ) {
                exists|k: int|
                    {
                        &&& 0 <= k < toks.len()
                        &&& #[trigger] toks[k] == operator
                        &&& derives(*left_expr, toks.subrange(0, k), Rule::Binary(level))
                        &&& derives(
                            *right_expr,
                            toks.subrange(k + 1, toks.len() as int),
                            tighter(Rule::Binary(level)),
                        )
                    }
            } else {
                derives(e, toks, tighter(Rule::Binary(level)))
            },
            _ => derives(e, toks, tighter(Rule::Binary(level))),
        },
        Rule::Assignment => match e {
            ExpressionView::Assignment { name, value } => {
                &&& toks.len() >= 2
                &&& toks[0] == name
                &&& name.token_type == TokenType::IDENTIFIER
                &&& toks[1].token_type == TokenType::EQUAL
                &&& derives(*value, toks.subrange(2, toks.len() as int), Rule::Assignment)
            },
            _ => derives(e, toks, Rule::Binary(Level::Equality)),
        },
    }
}

/// The rank of the rule that writes the root of an expression.
pub open spec fn root_rank(e: ExpressionView) -> nat {
    match e {
        ExpressionView::Literal(_) => 0,
        ExpressionView::Variable { variable } => 0,
        ExpressionView::Grouping { expr } => 0,
        ExpressionView::Unary { operator, expr } => 1,
        ExpressionView::Binary { operator, left_expr, right_expr } => {
            if is_level_operator(Level::Factor, operator.token_type) {
                2
            } else if is_level_operator(Level::Term, operator.token_type) {
                3
            } else if is_level_operator(Level::Comparison, operator.token_type) {
                4
            } else if is_level_operator(Level::Equality, operator.token_type) {
                5
            } else {
                7
            }
        },
        ExpressionView::Assignment { name, value } => 6,
    }
}

/// A rule writes no expression whose root binds more loosely than the rule.
pub proof fn lemma_root_binds_tighter(e: ExpressionView, toks: Seq<TokenView>, rule: Rule)
    requires
        derives(e, toks, rule),
    ensures
        root_rank(e) <= rule_rank(rule),
    decreases rule_rank(rule),
{
    match rule {
        Rule::Primary => {},
        Rule::Unary => {
            if !(e is Unary) {
                lemma_root_binds_tighter(e, toks, Rule::Primary);
            }
        },
        Rule::Binary(level) => {
            if !(e matches ExpressionView::Binary { operator, .. } && is_level_operator(
                level,
                operator.token_type,
            )) {
                lemma_root_binds_tighter(e, toks, tighter(rule));
            }
        },
        Rule::Assignment => {
            if !(e is Assignment) {
                lemma_root_binds_tighter(e, toks, Rule::Binary(Level::Equality));
            }
        },
    }
}

/// What a rule writes, every looser rule writes too.
pub proof fn lemma_looser_rule_derives(e: ExpressionView, toks: Seq<TokenView>, rule: Rule)
    requires
        derives(e, toks, tighter(rule)),
    ensures
        derives(e, toks, rule),
{
    if rule != Rule::Primary {
        lemma_root_binds_tighter(e, toks, tighter(rule));
    }
}

/// Whether what the rule came to is written with the tokens it read.
pub open spec fn written_as(
    tokens: Seq<TokenView>,
    pos: int,
    parsed: Parsed<ExpressionView>,
    rule: Rule,
) -> bool {
    parsed.result matches Ok(e) ==> derives(e, tokens.subrange(pos, parsed.pos), rule)
}

/// What `primary` accepts is a primary of the grammar.
pub proof fn lemma_primary_derives(tokens: Seq<TokenView>, pos: int)
    requires
        0 <= pos,
    ensures
        written_as(tokens, pos, parse_primary(tokens, pos), Rule::Primary),
    decreases tokens.len() - pos, 0nat, 0nat,
{
    reveal(parse_expression);
    let parsed = parse_primary(tokens, pos);
    lemma_primary_holds(tokens, pos);
    match parsed.result {
        Ok(e) => {
            let toks = tokens.subrange(pos, parsed.pos);
            if check(tokens, pos, TokenType::LEFT_PAREN) && !check(tokens, pos, TokenType::FALSE)
                && !check(tokens, pos, TokenType::TRUE) && !check(tokens, pos, TokenType::NIL)
                && !check(tokens, pos, TokenType::STRING) && !check(
                tokens,
                pos,
                TokenType::NUMBER,
            ) {
                let inner = parse_expression(tokens, pos + 1);
                lemma_expression_holds(tokens, pos + 1);
                lemma_expression_derives(tokens, pos + 1);
                assert(toks.subrange(1, toks.len() - 1) =~= tokens.subrange(pos + 1, inner.pos));
                assert(toks.first() == tokens[pos]);
                assert(toks.last() == tokens[inner.pos]);
            } else if check(tokens, pos, TokenType::IDENTIFIER) {
                assert(toks =~= seq![tokens[pos]]);
            } else {
                assert(toks.len() == 1);
                assert(toks[0] == tokens[pos]);
            }
        },
        Err(_) => {},
    }
}

/// What `unary` accepts is a unary expression of the grammar.
pub proof fn lemma_unary_derives(tokens: Seq<TokenView>, pos: int)
    requires
        0 <= pos,
    ensures
        written_as(tokens, pos, parse_unary(tokens, pos), Rule::Unary),
    decreases tokens.len() - pos, 0nat, 1nat,
{
    let parsed = parse_unary(tokens, pos);
    if check(tokens, pos, TokenType::MINUS) || check(tokens, pos, TokenType::BANG) {
        lemma_unary_derives(tokens, pos + 1);
        lemma_unary_holds(tokens, pos + 1);
        let operand = parse_unary(tokens, pos + 1);
        match operand.result {
            Ok(e) => {
                let toks = tokens.subrange(pos, parsed.pos);
                assert(toks.subrange(1, toks.len() as int) =~= tokens.subrange(
                    pos + 1,
                    operand.pos,
                ));
                assert(toks[0] == tokens[pos]);
            },
            Err(_) => {},
        }
    } else {
        lemma_primary_derives(tokens, pos);
        match parsed.result {
            Ok(e) => {
                lemma_looser_rule_derives(e, tokens.subrange(pos, parsed.pos), Rule::Unary);
            },
            Err(_) => {},
        }
    }
}

/// What is accepted as an operand of a level is written by the next
/// tighter rule.
pub proof fn lemma_operand_derives(tokens: Seq<TokenView>, pos: int, level: Level)
    requires
        0 <= pos,
    ensures
        written_as(tokens, pos, parse_operand(tokens, pos, level), tighter(Rule::Binary(level))),
    decreases tokens.len() - pos, level_rank(level), 0nat,
{
    match level {
        Level::Equality => lemma_level_derives(tokens, pos, Level::Comparison),
        Level::Comparison => lemma_level_derives(tokens, pos, Level::Term),
        Level::Term => lemma_level_derives(tokens, pos, Level::Factor),
        Level::Factor => lemma_unary_derives(tokens, pos),
    }
}

/// What a level of binary operators accepts is written by the rule of the
/// level.
pub proof fn lemma_level_derives(tokens: Seq<TokenView>, pos: int, level: Level)
    requires
        0 <= pos,
    ensures
        written_as(tokens, pos, parse_level(tokens, pos, level), Rule::Binary(level)),
    decreases tokens.len() - pos, level_rank(level), 2nat,
{
    lemma_operand_derives(tokens, pos, level);
    lemma_operand_holds(tokens, pos, level);
    let first = parse_operand(tokens, pos, level);
    match first.result {
        Ok(left) => {
            lemma_looser_rule_derives(
                left,
                tokens.subrange(pos, first.pos),
                Rule::Binary(level),
            );
            lemma_level_rest_derives(tokens, pos, first.pos, level, left);
        },
        Err(_) => {},
    }
}

/// Where the rule of a level wrote `left` with the tokens from `start` to
/// `pos`, it writes what follows `left` on the level with the tokens from
/// `start` on.
pub proof fn lemma_level_rest_derives(
    tokens: Seq<TokenView>,
    start: int,
    pos: int,
    level: Level,
    left: ExpressionView,
)
    requires
        0 <= start <= pos <= tokens.len(),
        derives(left, tokens.subrange(start, pos), Rule::Binary(level)),
    ensures
        written_as(
            tokens,
            start,
            parse_level_rest(tokens, pos, level, left),
            Rule::Binary(level),
        ),
    decreases tokens.len() - pos, level_rank(level), 1nat,
{
    if operator_at(tokens, pos, level) {
        lemma_operand_derives(tokens, pos + 1, level);
        lemma_operand_holds(tokens, pos + 1, level);
        let right = parse_operand(tokens, pos + 1, level);
        match right.result {
            Ok(r) => {
                let joined = ExpressionView::Binary {
                    operator: tokens[pos],
                    left_expr: Box::new(left),
                    right_expr: Box::new(r),
                };
                let toks = tokens.subrange(start, right.pos);
                let k = pos - start;
                assert(toks[k] == tokens[pos]);
                assert(toks.subrange(0, k) =~= tokens.subrange(start, pos));
                assert(toks.subrange(k + 1, toks.len() as int) =~= tokens.subrange(
                    pos + 1,
                    right.pos,
                ));
                assert(derives(joined, toks, Rule::Binary(level)));
                lemma_level_rest_derives(tokens, start, right.pos, level, joined);
            },
            Err(_) => {},
        }
    }
}

/// A variable is written with one token, its own, by whatever rule.
pub proof fn lemma_variable_is_one_token(
    variable: TokenView,
    toks: Seq<TokenView>,
    rule: Rule,
)
    requires
        derives(ExpressionView::Variable { variable }, toks, rule),
    ensures
        toks == seq![variable],
        variable.token_type == TokenType::IDENTIFIER,
    decreases rule_rank(rule),
{
    let e = ExpressionView::Variable { variable };
    match rule {
        Rule::Primary => {},
        Rule::Unary => lemma_variable_is_one_token(variable, toks, Rule::Primary),
        Rule::Binary(level) => lemma_variable_is_one_token(variable, toks, tighter(rule)),
        Rule::Assignment => lemma_variable_is_one_token(
            variable,
            toks,
            Rule::Binary(Level::Equality),
        ),
    }
}

/// What `assignment` accepts is an assignment of the grammar.
pub proof fn lemma_assignment_derives(tokens: Seq<TokenView>, pos: int)
    requires
        0 <= pos,
    ensures
        written_as(tokens, pos, parse_assignment(tokens, pos), Rule::Assignment),
    decreases tokens.len() - pos, 5nat, 0nat,
{
    let parsed = parse_assignment(tokens, pos);
    lemma_level_derives(tokens, pos, Level::Equality);
    lemma_level_holds(tokens, pos, Level::Equality);
    let left = parse_level(tokens, pos, Level::Equality);
    match left.result {
        Ok(target) => {
            if check(tokens, left.pos, TokenType::EQUAL) {
                lemma_assignment_derives(tokens, left.pos + 1);
                lemma_assignment_holds(tokens, left.pos + 1);
                let right = parse_assignment(tokens, left.pos + 1);
                match (right.result, target) {
                    (Ok(value), ExpressionView::Variable { variable }) => {
                        lemma_variable_is_one_token(
                            variable,
                            tokens.subrange(pos, left.pos),
                            Rule::Binary(Level::Equality),
                        );
                        let read = tokens.subrange(pos, left.pos);
                        assert(read.len() == 1);
                        assert(read[0] == tokens[pos]);
                        let toks = tokens.subrange(pos, right.pos);
                        assert(toks[0] == tokens[pos]);
                        assert(toks[1] == tokens[left.pos]);
                        assert(toks.subrange(2, toks.len() as int) =~= tokens.subrange(
                            left.pos + 1,
                            right.pos,
                        ));
                    },
                    _ => {},
                }
            } else {
                lemma_looser_rule_derives(
                    target,
                    tokens.subrange(pos, left.pos),
                    Rule::Assignment,
                );
            }
        },
        Err(_) => {},
    }
}

/// The parser accepts only what the grammar writes: whatever `expression`
/// builds is an expression of the grammar, written with exactly the tokens
/// that were read.
pub proof fn lemma_expression_derives(tokens: Seq<TokenView>, pos: int)
    requires
        0 <= pos,
    ensures
        written_as(tokens, pos, parse_expression(tokens, pos), Rule::Assignment),
    decreases tokens.len() - pos, 5nat, 1nat,
{
    reveal(parse_expression);
    lemma_assignment_derives(tokens, pos);
}

/// What a rule of the grammar makes of the tokens from `pos` on.
pub open spec fn parse_by(tokens: Seq<TokenView>, pos: int, rule: Rule) -> Parsed<ExpressionView> {
    match rule {
        Rule::Primary => parse_primary(tokens, pos),
        Rule::Unary => parse_unary(tokens, pos),
        Rule::Binary(level) => parse_level(tokens, pos, level),
        Rule::Assignment => parse_expression(tokens, pos),
    }
}

/// Whether the token at `pos` makes the rule read on behind an expression
/// that ends there: an operator of the rule's level or of a tighter one,
/// and, for an assignment, `=` too.
pub open spec fn reads_on(tokens: Seq<TokenView>, pos: int, rule: Rule) -> bool
    decreases rule_rank(rule),
{
    match rule {
        Rule::Primary => false,
        Rule::Unary => false,
        Rule::Binary(level) => operator_at(tokens, pos, level) || reads_on(
            tokens,
            pos,
            tighter(rule),
        ),
        Rule::Assignment => check(tokens, pos, TokenType::EQUAL) || reads_on(
            tokens,
            pos,
            Rule::Binary(Level::Equality),
        ),
    }
}

/// A variable that no operator follows is what every level makes of it.
proof fn lemma_variable_alone(tokens: Seq<TokenView>, pos: int)
    requires
        check(tokens, pos, TokenType::IDENTIFIER),
        !reads_on(tokens, pos + 1, Rule::Binary(Level::Equality)),
    ensures
        parse_level(tokens, pos, Level::Equality) == accepted(
            pos + 1,
            ExpressionView::Variable { variable: tokens[pos] },
        ),
{
    let e = ExpressionView::Variable { variable: tokens[pos] };
    let done = accepted(pos + 1, e);
    assert(!reads_on(tokens, pos + 1, Rule::Binary(Level::Comparison)));
    assert(!reads_on(tokens, pos + 1, Rule::Binary(Level::Term)));
    assert(!reads_on(tokens, pos + 1, Rule::Binary(Level::Factor)));
    assert(parse_primary(tokens, pos) == done);
    assert(parse_unary(tokens, pos) == done);
    assert(parse_operand(tokens, pos, Level::Factor) == done);
    assert(parse_level_rest(tokens, pos + 1, Level::Factor, e) == done);
    assert(parse_level(tokens, pos, Level::Factor) == done);
    assert(parse_operand(tokens, pos, Level::Term) == done);
    assert(parse_level_rest(tokens, pos + 1, Level::Term, e) == done);
    assert(parse_level(tokens, pos, Level::Term) == done);
    assert(parse_operand(tokens, pos, Level::Comparison) == done);
    assert(parse_level_rest(tokens, pos + 1, Level::Comparison, e) == done);
    assert(parse_level(tokens, pos, Level::Comparison) == done);
    assert(parse_operand(tokens, pos, Level::Equality) == done);
    assert(parse_level_rest(tokens, pos + 1, Level::Equality, e) == done);
    assert(parse_level(tokens, pos, Level::Equality) == done);
}

/// The parser accepts all that the grammar writes: where a rule of the
/// grammar writes `e` with the tokens from `pos` to `end`, and the token at
/// `end` does not make the rule read on, the rule builds `e` and stops at
/// `end`.
pub proof fn lemma_derived_is_parsed(
    e: ExpressionView,
    tokens: Seq<TokenView>,
    pos: int,
    end: int,
    rule: Rule,
)
    requires
        0 <= pos <= end <= tokens.len(),
        derives(e, tokens.subrange(pos, end), rule),
        !reads_on(tokens, end, rule),
    ensures
        parse_by(tokens, pos, rule) == accepted(end, e),
    decreases e, rule_rank(rule), 2nat,
{
    match rule {
        Rule::Primary => lemma_derived_primary_is_parsed(e, tokens, pos, end),
        Rule::Unary => lemma_derived_unary_is_parsed(e, tokens, pos, end),
        Rule::Binary(level) => lemma_derived_is_read(e, tokens, pos, end, level),
        Rule::Assignment => lemma_derived_assignment_is_parsed(e, tokens, pos, end),
    }
}

/// `primary` builds every primary that the grammar writes.
proof fn lemma_derived_primary_is_parsed(
    e: ExpressionView,
    tokens: Seq<TokenView>,
    pos: int,
    end: int,
)
    requires
        0 <= pos <= end <= tokens.len(),
        derives(e, tokens.subrange(pos, end), Rule::Primary),
    ensures
        parse_primary(tokens, pos) == accepted(end, e),
    decreases e, 0nat, 1nat,
{
    reveal(parse_expression);
    let toks = tokens.subrange(pos, end);
    assert(toks.len() >= 1);
    assert(toks[0] == tokens[pos]);
    match e {
        ExpressionView::Grouping { expr } => {
            assert(toks.last() == tokens[end - 1]);
            assert(toks.subrange(1, toks.len() - 1) =~= tokens.subrange(pos + 1, end - 1));
            lemma_no_operator_reads_on(tokens, end - 1);
            lemma_derived_is_parsed(*expr, tokens, pos + 1, end - 1, Rule::Assignment);
            assert(parse_expression(tokens, pos + 1) == accepted(end - 1, *expr));
            assert(check(tokens, pos, TokenType::LEFT_PAREN));
            assert(check(tokens, end - 1, TokenType::RIGHT_PAREN));
        },
        ExpressionView::Variable { variable } => {
            assert(check(tokens, pos, TokenType::IDENTIFIER));
        },
        ExpressionView::Literal(v) => {
            assert(end == pos + 1);
        },
        _ => {},
    }
}

/// `unary` builds every unary expression that the grammar writes.
proof fn lemma_derived_unary_is_parsed(
    e: ExpressionView,
    tokens: Seq<TokenView>,
    pos: int,
    end: int,
)
    requires
        0 <= pos <= end <= tokens.len(),
        derives(e, tokens.subrange(pos, end), Rule::Unary),
    ensures
        parse_unary(tokens, pos) == accepted(end, e),
    decreases e, 1nat, 1nat,
{
    let toks = tokens.subrange(pos, end);
    match e {
        ExpressionView::Unary { operator, expr } => {
            assert(toks[0] == tokens[pos]);
            assert(toks.subrange(1, toks.len() as int) =~= tokens.subrange(pos + 1, end));
            lemma_derived_is_parsed(*expr, tokens, pos + 1, end, Rule::Unary);
        },
        _ => {
            lemma_derived_has_tokens(e, toks, Rule::Primary);
            assert(toks[0] == tokens[pos]);
            lemma_derived_is_parsed(e, tokens, pos, end, Rule::Primary);
        },
    }
}

/// `assignment` builds every assignment that the grammar writes.
proof fn lemma_derived_assignment_is_parsed(
    e: ExpressionView,
    tokens: Seq<TokenView>,
    pos: int,
    end: int,
)
    requires
        0 <= pos <= end <= tokens.len(),
        derives(e, tokens.subrange(pos, end), Rule::Assignment),
        !reads_on(tokens, end, Rule::Assignment),
    ensures
        parse_expression(tokens, pos) == accepted(end, e),
        parse_assignment(tokens, pos) == accepted(end, e),
    decreases e, 6nat, 1nat,
{
    reveal(parse_expression);
    let toks = tokens.subrange(pos, end);
    match e {
        ExpressionView::Assignment { name, value } => {
            assert(toks[0] == tokens[pos]);
            assert(toks[1] == tokens[pos + 1]);
            assert(toks.subrange(2, toks.len() as int) =~= tokens.subrange(pos + 2, end));
            lemma_no_operator_reads_on(tokens, pos + 1);
            lemma_variable_alone(tokens, pos);
            lemma_derived_has_tokens(*value, tokens.subrange(pos + 2, end), Rule::Assignment);
            lemma_derived_is_parsed(*value, tokens, pos + 2, end, Rule::Assignment);
            let left = parse_level(tokens, pos, Level::Equality);
            assert(left == accepted(pos + 1, ExpressionView::Variable { variable: name }));
            assert(check(tokens, pos + 1, TokenType::EQUAL));
            assert(parse_assignment(tokens, pos + 2) == accepted(end, *value));
        },
        _ => {
            lemma_derived_is_parsed(e, tokens, pos, end, Rule::Binary(Level::Equality));
            let left = parse_level(tokens, pos, Level::Equality);
            assert(left == accepted(end, e));
            assert(!check(tokens, end, TokenType::EQUAL));
        },
    }
}

/// Where the rule of a level writes `e` with the tokens from `pos` to `end`,
/// and the token at `end` is no operator of a tighter level, the level reads
/// `e` and goes on at `end` with what follows `e` on the level.
pub proof fn lemma_derived_is_read(
    e: ExpressionView,
    tokens: Seq<TokenView>,
    pos: int,
    end: int,
    level: Level,
)
    requires
        0 <= pos <= end <= tokens.len(),
        derives(e, tokens.subrange(pos, end), Rule::Binary(level)),
        !reads_on(tokens, end, tighter(Rule::Binary(level))),
    ensures
        parse_level(tokens, pos, level) == parse_level_rest(tokens, end, level, e),
    decreases e, rule_rank(Rule::Binary(level)), 0nat,
{
    let toks = tokens.subrange(pos, end);
    let below = tighter(Rule::Binary(level));
    let split = e matches ExpressionView::Binary { operator, left_expr, right_expr }
        && is_level_operator(level, operator.token_type);
    if split {
        let operator = e->Binary_operator;
        let left = *e->Binary_left_expr;
        let right = *e->Binary_right_expr;
        let k = choose|k: int|
            {
                &&& 0 <= k < toks.len()
                &&& #[trigger] toks[k] == operator
                &&& derives(left, toks.subrange(0, k), Rule::Binary(level))
                &&& derives(right, toks.subrange(k + 1, toks.len() as int), below)
            };
        let at = pos + k;
        assert(toks[k] == tokens[at]);
        assert(toks.subrange(0, k) =~= tokens.subrange(pos, at));
        assert(toks.subrange(k + 1, toks.len() as int) =~= tokens.subrange(at + 1, end));
        // The operator is of this level, so of no tighter one: the left
        // operand ends in front of it.
        assert(!reads_on(tokens, at, below)) by {
            lemma_levels_are_apart(tokens, at, level);
        }
        lemma_derived_is_read(left, tokens, pos, at, level);
        lemma_derived_has_tokens(right, tokens.subrange(at + 1, end), below);
        lemma_derived_is_parsed(right, tokens, at + 1, end, below);
        assert(parse_operand(tokens, at + 1, level) == parse_by(tokens, at + 1, below));
        assert(parse_level_rest(tokens, at, level, left) == parse_level_rest(
            tokens,
            end,
            level,
            e,
        ));
    } else {
        lemma_derived_has_tokens(e, toks, below);
        lemma_derived_is_parsed(e, tokens, pos, end, below);
        assert(parse_operand(tokens, pos, level) == parse_by(tokens, pos, below));
    }
}

/// Whatever a rule writes, it writes with at least one token, and the first
/// one starts an expression: it is no operator but `-` and `!`, and not the
/// end of the input.
pub proof fn lemma_derived_has_tokens(e: ExpressionView, toks: Seq<TokenView>, rule: Rule)
    requires
        derives(e, toks, rule),
    ensures
        toks.len() >= 1,
        starts_expression(toks[0].token_type),
        rule == Rule::Primary ==> !is_unary_operator(toks[0].token_type),
    decreases e, rule_rank(rule),
{
    match rule {
        Rule::Primary => {},
        Rule::Unary => {
            if !(e is Unary) {
                lemma_derived_has_tokens(e, toks, Rule::Primary);
            }
        },
        Rule::Binary(level) => {
            let split = e matches ExpressionView::Binary { operator, left_expr, right_expr }
                && is_level_operator(level, operator.token_type);
            if split {
                let operator = e->Binary_operator;
                let left = *e->Binary_left_expr;
                let right = *e->Binary_right_expr;
                let k = choose|k: int|
                    {
                        &&& 0 <= k < toks.len()
                        &&& #[trigger] toks[k] == operator
                        &&& derives(left, toks.subrange(0, k), Rule::Binary(level))
                        &&& derives(
                            right,
                            toks.subrange(k + 1, toks.len() as int),
                            tighter(Rule::Binary(level)),
                        )
                    };
                lemma_derived_has_tokens(left, toks.subrange(0, k), Rule::Binary(level));
                assert(toks.subrange(0, k)[0] == toks[0]);
            } else {
                lemma_derived_has_tokens(e, toks, tighter(rule));
            }
        },
        Rule::Assignment => {
            if !(e is Assignment) {
                lemma_derived_has_tokens(e, toks, Rule::Binary(Level::Equality));
            }
        },
    }
}

/// The kinds of token that an expression can start with.
pub open spec fn starts_expression(kind: TokenType) -> bool {
    ||| kind == TokenType::FALSE
    ||| kind == TokenType::TRUE
    ||| kind == TokenType::NIL
    ||| kind == TokenType::STRING
    ||| kind == TokenType::NUMBER
    ||| kind == TokenType::LEFT_PAREN
    ||| kind == TokenType::IDENTIFIER
    ||| kind == TokenType::MINUS
    ||| kind == TokenType::BANG
}

/// An operator of one level is of no tighter level.
proof fn lemma_levels_are_apart(tokens: Seq<TokenView>, pos: int, level: Level)
    requires
        operator_at(tokens, pos, level),
    ensures
        !reads_on(tokens, pos, tighter(Rule::Binary(level))),
{
    assert(!reads_on(tokens, pos, Rule::Unary));
    if level != Level::Factor {
        assert(!reads_on(tokens, pos, Rule::Binary(Level::Factor)));
        if level != Level::Term {
            assert(!reads_on(tokens, pos, Rule::Binary(Level::Term)));
            if level != Level::Comparison {
                assert(!reads_on(tokens, pos, Rule::Binary(Level::Comparison)));
            }
        }
    }
}

/// A token that is no binary operator makes no level read on, and no
/// assignment either unless it is `=`.
proof fn lemma_no_operator_reads_on(tokens: Seq<TokenView>, pos: int)
    requires
        0 <= pos < tokens.len(),
        !is_binary_operator(tokens[pos].token_type),
    ensures
        !reads_on(tokens, pos, Rule::Binary(Level::Equality)),
        tokens[pos].token_type != TokenType::EQUAL ==> !reads_on(tokens, pos, Rule::Assignment),
{
    assert(!reads_on(tokens, pos, Rule::Unary));
    assert(!reads_on(tokens, pos, Rule::Binary(Level::Factor)));
    assert(!reads_on(tokens, pos, Rule::Binary(Level::Term)));
    assert(!reads_on(tokens, pos, Rule::Binary(Level::Comparison)));
    assert(!reads_on(tokens, pos, Rule::Binary(Level::Equality)));
}

/// Whether the rule stopped where the next token does not make it read on,
/// if it built an expression.
pub open spec fn stopped(tokens: Seq<TokenView>, parsed: Parsed<ExpressionView>, rule: Rule)
    -> bool {
    parsed.result is Ok ==> !reads_on(tokens, parsed.pos, rule)
}

/// An operand stops in front of a token that does not continue it.
pub proof fn lemma_operand_stops(tokens: Seq<TokenView>, pos: int, level: Level)
    ensures
        stopped(tokens, parse_operand(tokens, pos, level), tighter(Rule::Binary(level))),
    decreases tokens.len() - pos, level_rank(level), 0nat,
{
    match level {
        Level::Equality => lemma_level_stops(tokens, pos, Level::Comparison),
        Level::Comparison => lemma_level_stops(tokens, pos, Level::Term),
        Level::Term => lemma_level_stops(tokens, pos, Level::Factor),
        Level::Factor => {},
    }
}

/// A level of binary operators stops in front of a token that does not
/// continue it.
pub proof fn lemma_level_stops(tokens: Seq<TokenView>, pos: int, level: Level)
    ensures
        stopped(tokens, parse_level(tokens, pos, level), Rule::Binary(level)),
    decreases tokens.len() - pos, level_rank(level), 2nat,
{
    lemma_operand_stops(tokens, pos, level);
    lemma_operand_holds(tokens, pos, level);
    let first = parse_operand(tokens, pos, level);
    match first.result {
        Ok(left) => {
            lemma_level_rest_stops(tokens, first.pos, level, left);
        },
        Err(_) => {},
    }
}

/// What follows an operand on its level stops in front of a token that
/// does not continue the level.
pub proof fn lemma_level_rest_stops(
    tokens: Seq<TokenView>,
    pos: int,
    level: Level,
    left: ExpressionView,
)
    requires
        pos <= tokens.len(),
        !reads_on(tokens, pos, tighter(Rule::Binary(level))),
    ensures
        stopped(tokens, parse_level_rest(tokens, pos, level, left), Rule::Binary(level)),
    decreases tokens.len() - pos, level_rank(level), 1nat,
{
    if operator_at(tokens, pos, level) {
        lemma_operand_stops(tokens, pos + 1, level);
        lemma_operand_holds(tokens, pos + 1, level);
        let right = parse_operand(tokens, pos + 1, level);
        match right.result {
            Ok(r) => {
                let joined = ExpressionView::Binary {
                    operator: tokens[pos],
                    left_expr: Box::new(left),
                    right_expr: Box::new(r),
                };
                lemma_level_rest_stops(tokens, right.pos, level, joined);
            },
            Err(_) => {},
        }
    }
}

/// An assignment stops in front of a token that does not continue it.
pub proof fn lemma_assignment_stops(tokens: Seq<TokenView>, pos: int)
    ensures
        stopped(tokens, parse_assignment(tokens, pos), Rule::Assignment),
        stopped(tokens, parse_expression(tokens, pos), Rule::Assignment),
    decreases tokens.len() - pos,
{
    reveal(parse_expression);
    lemma_level_stops(tokens, pos, Level::Equality);
    lemma_level_holds(tokens, pos, Level::Equality);
    let left = parse_level(tokens, pos, Level::Equality);
    if left.result is Ok && check(tokens, left.pos, TokenType::EQUAL) {
        lemma_assignment_stops(tokens, left.pos + 1);
    }
}

/// The parser reads the grammar, all of it and nothing else: `expression`
/// builds `e` from the tokens between `pos` and `end` exactly if the
/// grammar writes `e` as an expression with these tokens and the token at
/// `end` continues no expression. So the tokens of an expression fix the
/// tree that is built from them.
pub proof fn lemma_parsed_iff_derived(
    e: ExpressionView,
    tokens: Seq<TokenView>,
    pos: int,
    end: int,
)
    requires
        0 <= pos <= end <= tokens.len(),
    ensures
        parse_expression(tokens, pos) == accepted(end, e) <==> derives(
            e,
            tokens.subrange(pos, end),
            Rule::Assignment,
        ) && !reads_on(tokens, end, Rule::Assignment),
{
    if parse_expression(tokens, pos) == accepted(end, e) {
        lemma_expression_derives(tokens, pos);
        lemma_assignment_stops(tokens, pos);
    }
    if derives(e, tokens.subrange(pos, end), Rule::Assignment) && !reads_on(
        tokens,
        end,
        Rule::Assignment,
    ) {
        lemma_derived_is_parsed(e, tokens, pos, end, Rule::Assignment);
    }
}

/// Whether the grammar writes the statement `s` with the tokens `toks`.
///
/// ```text
/// statement -> "print" expression ";"
///            | "var" IDENTIFIER ( "=" expression )? ";"
///            | "{" statement* "}"
///            | expression ";"
/// ```
pub open spec fn statement_derives(s: StatementView, toks: Seq<TokenView>) -> bool
    decreases s, 0nat,
{
    match s {
        StatementView::PrintStatement(e) => {
            &&& toks.len() >= 2
            &&& toks.first().token_type == TokenType::PRINT
            &&& toks.last().token_type == TokenType::SEMICOLON
            &&& derives(e, toks.subrange(1, toks.len() - 1), Rule::Assignment)
        },
        StatementView::ExprStatement(e) => {
            &&& toks.len() >= 1
            &&& toks.last().token_type == TokenType::SEMICOLON
            &&& derives(e, toks.subrange(0, toks.len() - 1), Rule::Assignment)
        },
        StatementView::DeclStatement { name, value } => {
            &&& toks.len() >= 3
            &&& toks[0].token_type == TokenType::VAR
            &&& toks[1] == name
            &&& name.token_type == TokenType::IDENTIFIER
            &&& toks.last().token_type == TokenType::SEMICOLON
            &&& match value {
                Some(e) => {
                    &&& toks.len() >= 4
                    &&& toks[2].token_type == TokenType::EQUAL
                    &&& derives(e, toks.subrange(3, toks.len() - 1), Rule::Assignment)
                },
                None => toks.len() == 3,
            }
        },
        StatementView::BlockStatement(list) => {
            &&& toks.len() >= 2
            &&& toks.first().token_type == TokenType::LEFT_BRACE
            &&& toks.last().token_type == TokenType::RIGHT_BRACE
            &&& statements_derive(list, 0, toks.subrange(1, toks.len() - 1))
        },
    }
}

/// Whether the grammar writes the statements `list[i..]`, one after the
/// other, with the tokens `toks`.
pub open spec fn statements_derive(list: Seq<StatementView>, i: int, toks: Seq<TokenView>) -> bool
    decreases list, list.len() - i,
{
    if 0 <= i < list.len() {
        exists|k: int|
            {
                &&& 0 < k <= toks.len()
                &&& statement_derives(list[i], #[trigger] toks.subrange(0, k))
                &&& statements_derive(list, i + 1, toks.subrange(k, toks.len() as int))
            }
    } else {
        toks.len() == 0
    }
}

/// What is written with `toks` for `list[i..]` is written so for the same
/// statements behind one more statement.
proof fn lemma_statements_derive_behind(
    first: StatementView,
    list: Seq<StatementView>,
    i: int,
    toks: Seq<TokenView>,
)
    requires
        0 <= i <= list.len(),
        statements_derive(list, i, toks),
    ensures
        statements_derive(seq![first] + list, i + 1, toks),
    decreases list.len() - i,
{
    let longer = seq![first] + list;
    if i < list.len() {
        let k = choose|k: int|
            {
                &&& 0 < k <= toks.len()
                &&& statement_derives(list[i], #[trigger] toks.subrange(0, k))
                &&& statements_derive(list, i + 1, toks.subrange(k, toks.len() as int))
            };
        lemma_statements_derive_behind(first, list, i + 1, toks.subrange(k, toks.len() as int));
        assert(longer[i + 1] == list[i]);
        assert(statement_derives(longer[i + 1], toks.subrange(0, k)));
    }
}

/// What `statement` accepts is a statement of the grammar, written with
/// exactly the tokens that were read.
pub proof fn lemma_statement_derives(tokens: Seq<TokenView>, pos: int)
    requires
        0 <= pos,
    ensures
        parse_statement(tokens, pos).result matches Ok(s) ==> statement_derives(
            s,
            tokens.subrange(pos, parse_statement(tokens, pos).pos),
        ),
    decreases tokens.len() - pos, 7nat, 0nat,
{
    let parsed = parse_statement(tokens, pos);
    lemma_statement_holds(tokens, pos);
    match parsed.result {
        Ok(s) => {
            let toks = tokens.subrange(pos, parsed.pos);
            assert(toks.first() == tokens[pos]);
            assert(toks.last() == tokens[parsed.pos - 1]);
            if check(tokens, pos, TokenType::PRINT) {
                lemma_expression_derives(tokens, pos + 1);
                lemma_expression_holds(tokens, pos + 1);
                let e = parse_expression(tokens, pos + 1);
                assert(toks.subrange(1, toks.len() - 1) =~= tokens.subrange(pos + 1, e.pos));
            } else if check(tokens, pos, TokenType::VAR) {
                assert(toks[1] == tokens[pos + 1]);
                if check(tokens, pos + 2, TokenType::EQUAL) {
                    lemma_expression_derives(tokens, pos + 3);
                    lemma_expression_holds(tokens, pos + 3);
                    let e = parse_expression(tokens, pos + 3);
                    assert(toks[2] == tokens[pos + 2]);
                    assert(toks.subrange(3, toks.len() - 1) =~= tokens.subrange(pos + 3, e.pos));
                }
            } else if check(tokens, pos, TokenType::LEFT_BRACE) {
                lemma_block_items_derive(tokens, pos + 1);
                lemma_block_items_hold(tokens, pos + 1);
                let items = parse_block_items(tokens, pos + 1);
                assert(toks.subrange(1, toks.len() - 1) =~= tokens.subrange(pos + 1, items.pos));
            } else {
                lemma_expression_derives(tokens, pos);
                lemma_expression_holds(tokens, pos);
                let e = parse_expression(tokens, pos);
                assert(toks.subrange(0, toks.len() - 1) =~= tokens.subrange(pos, e.pos));
            }
        },
        Err(_) => {},
    }
}

/// The statements that are accepted in a block are written, one after the
/// other, with exactly the tokens that were read.
pub proof fn lemma_block_items_derive(tokens: Seq<TokenView>, pos: int)
    requires
        0 <= pos <= tokens.len(),
    ensures
        parse_block_items(tokens, pos).result matches Ok(list) ==> statements_derive(
            list,
            0,
            tokens.subrange(pos, parse_block_items(tokens, pos).pos),
        ),
    decreases tokens.len() - pos, 8nat, 0nat,
{
    let parsed = parse_block_items(tokens, pos);
    lemma_block_items_hold(tokens, pos);
    if !(at_end(tokens, pos) || check(tokens, pos, TokenType::RIGHT_BRACE)) {
        lemma_statement_derives(tokens, pos);
        lemma_statement_holds(tokens, pos);
        let first = parse_statement(tokens, pos);
        match first.result {
            Ok(s) => {
                lemma_block_items_derive(tokens, first.pos);
                lemma_block_items_hold(tokens, first.pos);
                let rest = parse_block_items(tokens, first.pos);
                match rest.result {
                    Ok(list) => {
                        let toks = tokens.subrange(pos, rest.pos);
                        let k = first.pos - pos;
                        let all = seq![s] + list;
                        assert(toks.subrange(0, k) =~= tokens.subrange(pos, first.pos));
                        assert(toks.subrange(k, toks.len() as int) =~= tokens.subrange(
                            first.pos,
                            rest.pos,
                        ));
                        lemma_statements_derive_behind(
                            s,
                            list,
                            0,
                            tokens.subrange(first.pos, rest.pos),
                        );
                        assert(all[0] == s);
                        assert(statement_derives(all[0], toks.subrange(0, k)));
                    },
                    Err(_) => {},
                }
            },
            Err(_) => {},
        }
    } else {
        assert(tokens.subrange(pos, pos).len() == 0);
    }
}

/// The kinds of token that a statement can start with.
pub open spec fn starts_statement(kind: TokenType) -> bool {
    ||| kind == TokenType::PRINT
    ||| kind == TokenType::VAR
    ||| kind == TokenType::LEFT_BRACE
    ||| starts_expression(kind)
}

/// Every statement is written with at least one token, and the first one
/// starts a statement. The first token of an expression statement starts an
/// expression.
pub proof fn lemma_derived_statement_has_tokens(s: StatementView, toks: Seq<TokenView>)
    requires
        statement_derives(s, toks),
    ensures
        toks.len() >= 1,
        starts_statement(toks[0].token_type),
        s is ExprStatement ==> starts_expression(toks[0].token_type),
{
    match s {
        StatementView::ExprStatement(e) => {
            let inner = toks.subrange(0, toks.len() - 1);
            lemma_derived_has_tokens(e, inner, Rule::Assignment);
            assert(inner[0] == toks[0]);
        },
        _ => {},
    }
}

/// `statement` builds every statement that the grammar writes, from
/// exactly its tokens.
pub proof fn lemma_derived_statement_is_parsed(
    s: StatementView,
    tokens: Seq<TokenView>,
    pos: int,
    end: int,
)
    requires
        0 <= pos <= end <= tokens.len(),
        statement_derives(s, tokens.subrange(pos, end)),
    ensures
        parse_statement(tokens, pos) == accepted(end, s),
    decreases s, 1nat,
{
    let toks = tokens.subrange(pos, end);
    lemma_derived_statement_has_tokens(s, toks);
    assert(toks[0] == tokens[pos]);
    assert(toks.last() == tokens[end - 1]);
    match s {
        StatementView::PrintStatement(e) => {
            assert(toks.subrange(1, toks.len() - 1) =~= tokens.subrange(pos + 1, end - 1));
            lemma_no_operator_reads_on(tokens, end - 1);
            lemma_derived_is_parsed(e, tokens, pos + 1, end - 1, Rule::Assignment);
            assert(check(tokens, pos, TokenType::PRINT));
            assert(check(tokens, end - 1, TokenType::SEMICOLON));
        },
        StatementView::ExprStatement(e) => {
            assert(toks.subrange(0, toks.len() - 1) =~= tokens.subrange(pos, end - 1));
            lemma_no_operator_reads_on(tokens, end - 1);
            lemma_derived_is_parsed(e, tokens, pos, end - 1, Rule::Assignment);
            assert(!check(tokens, pos, TokenType::PRINT));
            assert(!check(tokens, pos, TokenType::VAR));
            assert(!check(tokens, pos, TokenType::LEFT_BRACE));
            assert(check(tokens, end - 1, TokenType::SEMICOLON));
        },
        StatementView::DeclStatement { name, value } => {
            assert(toks[1] == tokens[pos + 1]);
            assert(check(tokens, pos, TokenType::VAR));
            assert(check(tokens, pos + 1, TokenType::IDENTIFIER));
            assert(check(tokens, end - 1, TokenType::SEMICOLON));
            match value {
                Some(e) => {
                    assert(toks[2] == tokens[pos + 2]);
                    assert(toks.subrange(3, toks.len() - 1) =~= tokens.subrange(pos + 3, end - 1));
                    lemma_no_operator_reads_on(tokens, end - 1);
                    lemma_derived_is_parsed(e, tokens, pos + 3, end - 1, Rule::Assignment);
                    assert(check(tokens, pos + 2, TokenType::EQUAL));
                },
                None => {
                    assert(end == pos + 3);
                    assert(!check(tokens, pos + 2, TokenType::EQUAL));
                },
            }
        },
        StatementView::BlockStatement(list) => {
            assert(toks.subrange(1, toks.len() - 1) =~= tokens.subrange(pos + 1, end - 1));
            assert(check(tokens, pos, TokenType::LEFT_BRACE));
            assert(check(tokens, end - 1, TokenType::RIGHT_BRACE));
            lemma_derived_statements_are_parsed(list, 0, tokens, pos + 1, end - 1);
            assert(list.subrange(0, list.len() as int) =~= list);
        },
    }
}

/// The statements of a block are built, one after the other, from exactly
/// their tokens, where `}` follows them.
pub proof fn lemma_derived_statements_are_parsed(
    list: Seq<StatementView>,
    i: int,
    tokens: Seq<TokenView>,
    pos: int,
    end: int,
)
    requires
        0 <= i <= list.len(),
        0 <= pos <= end <= tokens.len(),
        statements_derive(list, i, tokens.subrange(pos, end)),
        check(tokens, end, TokenType::RIGHT_BRACE),
    ensures
        parse_block_items(tokens, pos) == accepted(end, list.subrange(i, list.len() as int)),
    decreases list, list.len() - i,
{
    let toks = tokens.subrange(pos, end);
    if i < list.len() {
        let k = choose|k: int|
            {
                &&& 0 < k <= toks.len()
                &&& statement_derives(list[i], #[trigger] toks.subrange(0, k))
                &&& statements_derive(list, i + 1, toks.subrange(k, toks.len() as int))
            };
        let next = pos + k;
        assert(toks.subrange(0, k) =~= tokens.subrange(pos, next));
        assert(toks.subrange(k, toks.len() as int) =~= tokens.subrange(next, end));
        lemma_derived_statement_has_tokens(list[i], tokens.subrange(pos, next));
        assert(tokens.subrange(pos, next)[0] == tokens[pos]);
        lemma_derived_statement_is_parsed(list[i], tokens, pos, next);
        lemma_derived_statements_are_parsed(list, i + 1, tokens, next, end);
        assert(seq![list[i]] + list.subrange(i + 1, list.len() as int) =~= list.subrange(
            i,
            list.len() as int,
        ));
        assert(!at_end(tokens, pos));
        assert(!check(tokens, pos, TokenType::RIGHT_BRACE));
    } else {
        assert(pos == end);
        assert(list.subrange(i, list.len() as int) =~= Seq::<StatementView>::empty());
    }
}

/// The parser reads the grammar of statements, all of it and nothing else:
/// `statement` builds `s` from the tokens between `pos` and `end` exactly
/// if the grammar writes `s` with these tokens.
pub proof fn lemma_statement_parsed_iff_derived(
    s: StatementView,
    tokens: Seq<TokenView>,
    pos: int,
    end: int,
)
    requires
        0 <= pos <= end <= tokens.len(),
    ensures
        parse_statement(tokens, pos) == accepted(end, s) <==> statement_derives(
            s,
            tokens.subrange(pos, end),
        ),
{
    if parse_statement(tokens, pos) == accepted(end, s) {
        lemma_statement_derives(tokens, pos);
    }
    if statement_derives(s, tokens.subrange(pos, end)) {
        lemma_derived_statement_is_parsed(s, tokens, pos, end);
    }
}

/// The program `list`, read without error up to `end`.
pub open spec fn program_read(end: int, list: Seq<StatementView>) -> ParsedItems<StatementView> {
    ParsedItems { pos: end, items: list, error: None }
}

/// The statements of a program that is read without error are written, one
/// after the other, with exactly the tokens in front of the end of the
/// input.
pub proof fn lemma_program_derives(tokens: Seq<TokenView>, pos: int)
    requires
        0 <= pos <= tokens.len(),
    ensures
        parse_program(tokens, pos).error is None ==> {
            &&& pos <= parse_program(tokens, pos).pos <= tokens.len()
            &&& at_end(tokens, parse_program(tokens, pos).pos)
            &&& statements_derive(
                parse_program(tokens, pos).items,
                0,
                tokens.subrange(pos, parse_program(tokens, pos).pos),
            )
        },
    decreases tokens.len() - pos,
{
    let parsed = parse_program(tokens, pos);
    if !at_end(tokens, pos) {
        lemma_statement_derives(tokens, pos);
        lemma_statement_holds(tokens, pos);
        let first = parse_statement(tokens, pos);
        match first.result {
            Ok(s) => {
                lemma_program_derives(tokens, first.pos);
                let rest = parse_program(tokens, first.pos);
                if rest.error is None {
                    let toks = tokens.subrange(pos, rest.pos);
                    let k = first.pos - pos;
                    let all = seq![s] + rest.items;
                    assert(toks.subrange(0, k) =~= tokens.subrange(pos, first.pos));
                    assert(toks.subrange(k, toks.len() as int) =~= tokens.subrange(
                        first.pos,
                        rest.pos,
                    ));
                    lemma_statements_derive_behind(
                        s,
                        rest.items,
                        0,
                        tokens.subrange(first.pos, rest.pos),
                    );
                    assert(all[0] == s);
                    assert(statement_derives(all[0], toks.subrange(0, k)));
                }
            },
            Err(_) => {},
        }
    } else {
        assert(tokens.subrange(pos, pos).len() == 0);
    }
}

/// The statements that the grammar writes up to the end of the input are
/// read as a program, without error.
pub proof fn lemma_derived_program_is_parsed(
    list: Seq<StatementView>,
    i: int,
    tokens: Seq<TokenView>,
    pos: int,
    end: int,
)
    requires
        0 <= i <= list.len(),
        0 <= pos <= end <= tokens.len(),
        statements_derive(list, i, tokens.subrange(pos, end)),
        at_end(tokens, end),
    ensures
        parse_program(tokens, pos) == program_read(end, list.subrange(i, list.len() as int)),
    decreases list.len() - i,
{
    let toks = tokens.subrange(pos, end);
    if i < list.len() {
        let k = choose|k: int|
            {
                &&& 0 < k <= toks.len()
                &&& statement_derives(list[i], #[trigger] toks.subrange(0, k))
                &&& statements_derive(list, i + 1, toks.subrange(k, toks.len() as int))
            };
        let next = pos + k;
        assert(toks.subrange(0, k) =~= tokens.subrange(pos, next));
        assert(toks.subrange(k, toks.len() as int) =~= tokens.subrange(next, end));
        lemma_derived_statement_has_tokens(list[i], tokens.subrange(pos, next));
        assert(tokens.subrange(pos, next)[0] == tokens[pos]);
        lemma_derived_statement_is_parsed(list[i], tokens, pos, next);
        lemma_derived_program_is_parsed(list, i + 1, tokens, next, end);
        assert(seq![list[i]] + list.subrange(i + 1, list.len() as int) =~= list.subrange(
            i,
            list.len() as int,
        ));
        assert(!at_end(tokens, pos));
    } else {
        assert(pos == end);
        assert(list.subrange(i, list.len() as int) =~= Seq::<StatementView>::empty());
    }
}

/// The parser reads the grammar of programs, all of it and nothing else: a
/// program is read without error up to the end of the input at `end`
/// exactly if the grammar writes its statements, one after the other, with
/// the tokens in front of `end`.
pub proof fn lemma_program_parsed_iff_derived(
    list: Seq<StatementView>,
    tokens: Seq<TokenView>,
    end: int,
)
    requires
        0 <= end <= tokens.len(),
        at_end(tokens, end),
    ensures
        parse_program(tokens, 0) == program_read(end, list) <==> statements_derive(
            list,
            0,
            tokens.subrange(0, end),
        ),
{
    if parse_program(tokens, 0) == program_read(end, list) {
        lemma_program_derives(tokens, 0);
    }
    if statements_derive(list, 0, tokens.subrange(0, end)) {
        lemma_derived_program_is_parsed(list, 0, tokens, 0, end);
        assert(list.subrange(0, list.len() as int) =~= list);
    }
}

} // verus!
