//! The grammar, as functions from a token sequence and a position to what
//! the parser makes of the tokens from there.
//!
//! ```text
//! program    -> statement* EOF
//! statement  -> "print" expression ";"
//!             | "var" IDENTIFIER ( "=" expression )? ";"
//!             | "{" statement* "}"
//!             | expression ";"
//! expression -> assignment
//! assignment -> equality ( "=" assignment )?
//! equality   -> comparison ( ( "!=" | "==" ) comparison )*
//! comparison -> term ( ( "<" | "<=" | ">" | ">=" ) term )*
//! term       -> factor ( ( "+" | "-" ) factor )*
//! factor     -> unary ( ( "*" | "/" ) unary )*
//! unary      -> ( "-" | "!" ) unary | primary
//! primary    -> "false" | "true" | "nil" | NUMBER | STRING
//!             | "(" expression ")" | IDENTIFIER
//! ```
//!
//! A rule never moves backwards nor past the last token. Its definition says
//! so wherever it goes on from the position that another rule returned.
//!
//! The module `derivation` states the same grammar as a relation between a
//! tree and its tokens, and proves that these functions read exactly it.

use vstd::prelude::*;
use crate::token::{TokenType, TokenView};
use crate::error::{ParseErrorKind, ParseErrorView, error_at};
use crate::expr::{ExpressionView, LiteralView, well_formed, is_binary_operator};
use crate::statement::{StatementView, statement_well_formed, all_well_formed, lemma_block_well_formed};
use crate::number::{literal_value, or_zero};

verus! {

/// What a rule makes of the tokens: the position after what it read, and the
/// tree it built or the error it met.
pub ghost struct Parsed<T> {
    pub pos: int,
    pub result: Result<T, ParseErrorView>,
}

/// Whether the input ends at `pos`: at `EOF`, or past the last token.
pub open spec fn at_end(tokens: Seq<TokenView>, pos: int) -> bool {
    !(0 <= pos < tokens.len()) || tokens[pos].token_type == TokenType::EOF
}

/// Whether the token at `pos` is of kind `kind` and the input does not end
/// there.
pub open spec fn check(tokens: Seq<TokenView>, pos: int, kind: TokenType) -> bool {
    !at_end(tokens, pos) && tokens[pos].token_type == kind
}

/// The rule read up to `pos` and built `value`.
pub open spec fn accepted<T>(pos: int, value: T) -> Parsed<T> {
    Parsed { pos, result: Ok(value) }
}

/// The rule stopped at `pos` and reports `kind` at the token at `at`.
pub open spec fn rejected<T>(tokens: Seq<TokenView>, pos: int, at: int, kind: ParseErrorKind)
    -> Parsed<T> {
    Parsed { pos, result: Err(error_at(tokens, at, kind)) }
}

/// The levels of left-associative binary operators, loosest first.
#[derive(Debug, PartialEq, Eq, Clone, Copy, Structural)]
pub enum Level {
    Equality,
    Comparison,
    Term,
    Factor,
}

/// How tightly the operators of a level bind.
pub open spec fn level_rank(level: Level) -> nat {
    match level {
        Level::Equality => 4,
        Level::Comparison => 3,
        Level::Term => 2,
        Level::Factor => 1,
    }
}

/// The operators of each level.
pub open spec fn is_level_operator(level: Level, kind: TokenType) -> bool {
    match level {
        Level::Equality => kind == TokenType::BANG_EQUAL || kind == TokenType::EQUAL_EQUAL,
        Level::Comparison => kind == TokenType::LESS_EQUAL || kind == TokenType::LESS || kind
            == TokenType::GREATER || kind == TokenType::GREATER_EQUAL,
        Level::Term => kind == TokenType::PLUS || kind == TokenType::MINUS,
        Level::Factor => kind == TokenType::STAR || kind == TokenType::SLASH,
    }
}

/// Whether an operator of `level` stands at `pos`.
pub open spec fn operator_at(tokens: Seq<TokenView>, pos: int, level: Level) -> bool {
    !at_end(tokens, pos) && is_level_operator(level, tokens[pos].token_type)
}

/// The number that the payload of a `NUMBER` token stands for: the value of
/// the literal, and zero where the payload is missing, is no literal, or is
/// a literal longer than the conversion can count.
pub open spec fn number_of(literal: Option<Seq<char>>) -> u64 {
    match literal {
        Some(text) => or_zero(literal_value(text)),
        None => 0,
    }
}

/// The content that the payload of a `STRING` token stands for.
pub open spec fn string_of(literal: Option<Seq<char>>) -> Seq<char> {
    match literal {
        Some(text) => text,
        None => Seq::empty(),
    }
}

/// `primary`: a literal, a parenthesized expression or a variable.
pub open spec fn parse_primary(tokens: Seq<TokenView>, pos: int) -> Parsed<ExpressionView>
    decreases tokens.len() - pos, 0nat, 0nat,
{
    if check(tokens, pos, TokenType::FALSE) {
        accepted(pos + 1, ExpressionView::Literal(LiteralView::Bool(false)))
    } else if check(tokens, pos, TokenType::TRUE) {
        accepted(pos + 1, ExpressionView::Literal(LiteralView::Bool(true)))
    } else if check(tokens, pos, TokenType::NIL) {
        accepted(pos + 1, ExpressionView::Literal(LiteralView::Nil))
    } else if check(tokens, pos, TokenType::STRING) {
        accepted(
            pos + 1,
            ExpressionView::Literal(LiteralView::String(string_of(tokens[pos].literal))),
        )
    } else if check(tokens, pos, TokenType::NUMBER) {
        accepted(
            pos + 1,
            ExpressionView::Literal(LiteralView::Number(number_of(tokens[pos].literal))),
        )
    } else if check(tokens, pos, TokenType::LEFT_PAREN) {
        let inner = parse_expression(tokens, pos + 1);
        match inner.result {
            Ok(e) => if check(tokens, inner.pos, TokenType::RIGHT_PAREN) {
                accepted(inner.pos + 1, ExpressionView::Grouping { expr: Box::new(e) })
            } else {
                rejected(tokens, inner.pos, inner.pos, ParseErrorKind::ExpectExpression)
            },
            Err(_) => inner,
        }
    } else if check(tokens, pos, TokenType::IDENTIFIER) {
        accepted(pos + 1, ExpressionView::Variable { variable: tokens[pos] })
    } else {
        rejected(tokens, pos, pos, ParseErrorKind::ExpectExpression)
    }
}

/// `unary`: any number of `-` and `!`, then a primary; the operators nest to
/// the right.
pub open spec fn parse_unary(tokens: Seq<TokenView>, pos: int) -> Parsed<ExpressionView>
    decreases tokens.len() - pos, 0nat, 1nat,
{
    if check(tokens, pos, TokenType::MINUS) || check(tokens, pos, TokenType::BANG) {
        let operand = parse_unary(tokens, pos + 1);
        match operand.result {
            Ok(e) => accepted(
                operand.pos,
                ExpressionView::Unary { operator: tokens[pos], expr: Box::new(e) },
            ),
            Err(_) => operand,
        }
    } else {
        parse_primary(tokens, pos)
    }
}

/// An operand of the operators of `level`: an expression of the next
/// tighter level.
pub open spec fn parse_operand(tokens: Seq<TokenView>, pos: int, level: Level) -> Parsed<
    ExpressionView,
>
    decreases tokens.len() - pos, level_rank(level), 0nat,
{
    match level {
        Level::Equality => parse_level(tokens, pos, Level::Comparison),
        Level::Comparison => parse_level(tokens, pos, Level::Term),
        Level::Term => parse_level(tokens, pos, Level::Factor),
        Level::Factor => parse_unary(tokens, pos),
    }
}

/// One level of binary operators: an operand, then any number of operators
/// of the level, each with its operand; the operators nest to the left.
pub open spec fn parse_level(tokens: Seq<TokenView>, pos: int, level: Level) -> Parsed<
    ExpressionView,
>
    decreases tokens.len() - pos, level_rank(level), 2nat,
{
    let first = parse_operand(tokens, pos, level);
    match first.result {
        Ok(left) => if pos <= first.pos <= tokens.len() {
            parse_level_rest(tokens, first.pos, level, left)
        } else {
            first
        },
        Err(_) => first,
    }
}

/// What follows the operand `left` on its level: nothing, or an operator of
/// the level at `pos`, its right operand, and what follows the two.
pub open spec fn parse_level_rest(
    tokens: Seq<TokenView>,
    pos: int,
    level: Level,
    left: ExpressionView,
) -> Parsed<ExpressionView>
    decreases tokens.len() - pos, level_rank(level), 1nat,
{
    if operator_at(tokens, pos, level) {
        let right = parse_operand(tokens, pos + 1, level);
        match right.result {
            Ok(r) => {
                let joined = ExpressionView::Binary {
                    operator: tokens[pos],
                    left_expr: Box::new(left),
                    right_expr: Box::new(r),
                };
                if pos < right.pos <= tokens.len() {
                    parse_level_rest(tokens, right.pos, level, joined)
                } else {
                    accepted(right.pos, joined)
                }
            },
            Err(_) => right,
        }
    } else {
        accepted(pos, left)
    }
}

/// `assignment`: an equality, and, if `=` follows it, the assignment that
/// is its right side. The left side must then be a variable; the error names
/// the `=`.
pub open spec fn parse_assignment(tokens: Seq<TokenView>, pos: int) -> Parsed<ExpressionView>
    decreases tokens.len() - pos, 5nat, 0nat,
{
    let left = parse_level(tokens, pos, Level::Equality);
    match left.result {
        Ok(target) => if left.pos >= pos && check(tokens, left.pos, TokenType::EQUAL) {
            let right = parse_assignment(tokens, left.pos + 1);
            match right.result {
                Ok(value) => match target {
                    ExpressionView::Variable { variable } => accepted(
                        right.pos,
                        ExpressionView::Assignment { name: variable, value: Box::new(value) },
                    ),
                    _ => rejected(
                        tokens,
                        right.pos,
                        left.pos,
                        ParseErrorKind::InvalidAssignmentTarget,
                    ),
                },
                Err(_) => right,
            }
        } else {
            left
        },
        Err(_) => left,
    }
}

/// `expression`: an assignment.
#[verifier::opaque]
pub open spec fn parse_expression(tokens: Seq<TokenView>, pos: int) -> Parsed<ExpressionView>
    decreases tokens.len() - pos, 5nat, 1nat,
{
    parse_assignment(tokens, pos)
}

/// What a rule that reads a sequence of top-level items makes of the
/// tokens: the position it stopped at, the items it read, and the error
/// that stopped it, if one did.
pub ghost struct ParsedItems<T> {
    pub pos: int,
    pub items: Seq<T>,
    pub error: Option<ParseErrorView>,
}

/// `first`, then `rest`.
pub open spec fn item_then<T>(first: T, rest: ParsedItems<T>) -> ParsedItems<T> {
    ParsedItems { pos: rest.pos, items: seq![first] + rest.items, error: rest.error }
}

/// The expressions that follow one another from `pos` to the end of the
/// input, or to the first error.
pub open spec fn parse_expressions(tokens: Seq<TokenView>, pos: int) -> ParsedItems<
    ExpressionView,
>
    decreases tokens.len() - pos,
{
    if at_end(tokens, pos) {
        ParsedItems { pos, items: Seq::empty(), error: None }
    } else {
        let first = parse_expression(tokens, pos);
        match first.result {
            Ok(e) => if pos < first.pos <= tokens.len() {
                item_then(e, parse_expressions(tokens, first.pos))
            } else {
                ParsedItems { pos: first.pos, items: seq![e], error: None }
            },
            Err(error) => ParsedItems { pos: first.pos, items: Seq::empty(), error: Some(error) },
        }
    }
}

/// The statement `s` if `;` stands at `pos`, and the report of a missing
/// `;` if it does not.
pub open spec fn closed_by_semicolon(tokens: Seq<TokenView>, pos: int, s: StatementView)
    -> Parsed<StatementView> {
    if check(tokens, pos, TokenType::SEMICOLON) {
        accepted(pos + 1, s)
    } else {
        rejected(tokens, pos, pos, ParseErrorKind::ExpectSemicolon)
    }
}

/// `statement`: a `print` statement, a declaration, a block, or an
/// expression statement.
pub open spec fn parse_statement(tokens: Seq<TokenView>, pos: int) -> Parsed<StatementView>
    decreases tokens.len() - pos, 7nat, 0nat,
{
    if check(tokens, pos, TokenType::PRINT) {
        let e = parse_expression(tokens, pos + 1);
        match e.result {
            Ok(x) => closed_by_semicolon(tokens, e.pos, StatementView::PrintStatement(x)),
            Err(error) => Parsed { pos: e.pos, result: Err(error) },
        }
    } else if check(tokens, pos, TokenType::VAR) {
        if check(tokens, pos + 1, TokenType::IDENTIFIER) {
            if check(tokens, pos + 2, TokenType::EQUAL) {
                let e = parse_expression(tokens, pos + 3);
                match e.result {
                    Ok(x) => closed_by_semicolon(
                        tokens,
                        e.pos,
                        StatementView::DeclStatement { name: tokens[pos + 1], value: Some(x) },
                    ),
                    Err(error) => Parsed { pos: e.pos, result: Err(error) },
                }
            } else {
                closed_by_semicolon(
                    tokens,
                    pos + 2,
                    StatementView::DeclStatement { name: tokens[pos + 1], value: None },
                )
            }
        } else {
            rejected(tokens, pos + 1, pos + 1, ParseErrorKind::ExpectVariableName)
        }
    } else if check(tokens, pos, TokenType::LEFT_BRACE) {
        let items = parse_block_items(tokens, pos + 1);
        match items.result {
            Ok(list) => if check(tokens, items.pos, TokenType::RIGHT_BRACE) {
                accepted(items.pos + 1, StatementView::BlockStatement(list))
            } else {
                rejected(tokens, items.pos, items.pos, ParseErrorKind::ExpectRightBrace)
            },
            Err(error) => Parsed { pos: items.pos, result: Err(error) },
        }
    } else {
        let e = parse_expression(tokens, pos);
        match e.result {
            Ok(x) => closed_by_semicolon(tokens, e.pos, StatementView::ExprStatement(x)),
            Err(error) => Parsed { pos: e.pos, result: Err(error) },
        }
    }
}

/// The statements of a block: those that follow one another from `pos` up
/// to a `}` or the end of the input.
pub open spec fn parse_block_items(tokens: Seq<TokenView>, pos: int) -> Parsed<
    Seq<StatementView>,
>
    decreases tokens.len() - pos, 8nat, 0nat,
{
    if at_end(tokens, pos) || check(tokens, pos, TokenType::RIGHT_BRACE) {
        accepted(pos, Seq::empty())
    } else {
        let first = parse_statement(tokens, pos);
        match first.result {
            Ok(s) => if pos < first.pos <= tokens.len() {
                let rest = parse_block_items(tokens, first.pos);
                match rest.result {
                    Ok(list) => accepted(rest.pos, seq![s] + list),
                    Err(_) => rest,
                }
            } else {
                accepted(first.pos, seq![s])
            },
            Err(error) => Parsed { pos: first.pos, result: Err(error) },
        }
    }
}

/// `program`: the statements that follow one another from `pos` to the end
/// of the input, or to the first error.
pub open spec fn parse_program(tokens: Seq<TokenView>, pos: int) -> ParsedItems<StatementView>
    decreases tokens.len() - pos,
{
    if at_end(tokens, pos) {
        ParsedItems { pos, items: Seq::empty(), error: None }
    } else {
        let first = parse_statement(tokens, pos);
        match first.result {
            Ok(s) => if pos < first.pos <= tokens.len() {
                item_then(s, parse_program(tokens, first.pos))
            } else {
                ParsedItems { pos: first.pos, items: seq![s], error: None }
            },
            Err(error) => ParsedItems { pos: first.pos, items: Seq::empty(), error: Some(error) },
        }
    }
}

/// Whether a rule that started at `pos` and came to `parsed` did well, if it
/// built an expression: it moved forward, it stayed within the tokens, and
/// every operator in the expression is one that its node can have.
pub open spec fn expression_holds(
    tokens: Seq<TokenView>,
    pos: int,
    parsed: Parsed<ExpressionView>,
) -> bool {
    parsed.result matches Ok(e) ==> pos < parsed.pos <= tokens.len() && well_formed(e)
}

/// Whether a rule that started at `pos` and came to `parsed` did well, if it
/// built a statement: it moved forward, it stayed within the tokens, and the
/// statement is well formed.
pub open spec fn statement_holds(
    tokens: Seq<TokenView>,
    pos: int,
    parsed: Parsed<StatementView>,
) -> bool {
    parsed.result matches Ok(s) ==> pos < parsed.pos <= tokens.len() && statement_well_formed(s)
}

/// What `primary` accepts holds.
pub proof fn lemma_primary_holds(tokens: Seq<TokenView>, pos: int)
    ensures
        expression_holds(tokens, pos, parse_primary(tokens, pos)),
    decreases tokens.len() - pos, 0nat, 0nat,
{
    reveal(parse_expression);
    if check(tokens, pos, TokenType::LEFT_PAREN) {
        lemma_expression_holds(tokens, pos + 1);
    }
}

/// What `unary` accepts holds.
pub proof fn lemma_unary_holds(tokens: Seq<TokenView>, pos: int)
    ensures
        expression_holds(tokens, pos, parse_unary(tokens, pos)),
    decreases tokens.len() - pos, 0nat, 1nat,
{
    if check(tokens, pos, TokenType::MINUS) || check(tokens, pos, TokenType::BANG) {
        lemma_unary_holds(tokens, pos + 1);
    } else {
        lemma_primary_holds(tokens, pos);
    }
}

/// What is accepted as an operand holds.
pub proof fn lemma_operand_holds(tokens: Seq<TokenView>, pos: int, level: Level)
    ensures
        expression_holds(tokens, pos, parse_operand(tokens, pos, level)),
    decreases tokens.len() - pos, level_rank(level), 0nat,
{
    match level {
        Level::Equality => lemma_level_holds(tokens, pos, Level::Comparison),
        Level::Comparison => lemma_level_holds(tokens, pos, Level::Term),
        Level::Term => lemma_level_holds(tokens, pos, Level::Factor),
        Level::Factor => lemma_unary_holds(tokens, pos),
    }
}

/// What a level of binary operators accepts holds.
pub proof fn lemma_level_holds(tokens: Seq<TokenView>, pos: int, level: Level)
    ensures
        expression_holds(tokens, pos, parse_level(tokens, pos, level)),
    decreases tokens.len() - pos, level_rank(level), 2nat,
{
    lemma_operand_holds(tokens, pos, level);
    let first = parse_operand(tokens, pos, level);
    match first.result {
        Ok(left) => {
            lemma_level_rest_holds(tokens, first.pos, level, left);
        },
        Err(_) => {},
    }
}

/// What follows a well-formed operand ends at or after the operand's end,
/// within the tokens, and is well formed with it.
pub proof fn lemma_level_rest_holds(
    tokens: Seq<TokenView>,
    pos: int,
    level: Level,
    left: ExpressionView,
)
    requires
        pos <= tokens.len(),
        well_formed(left),
    ensures
        parse_level_rest(tokens, pos, level, left).result matches Ok(e) ==> pos
            <= parse_level_rest(tokens, pos, level, left).pos <= tokens.len() && well_formed(e),
    decreases tokens.len() - pos, level_rank(level), 1nat,
{
    if operator_at(tokens, pos, level) {
        lemma_operand_holds(tokens, pos + 1, level);
        let right = parse_operand(tokens, pos + 1, level);
        match right.result {
            Ok(r) => {
                let joined = ExpressionView::Binary {
                    operator: tokens[pos],
                    left_expr: Box::new(left),
                    right_expr: Box::new(r),
                };
                assert(is_binary_operator(tokens[pos].token_type));
                lemma_level_rest_holds(tokens, right.pos, level, joined);
            },
            Err(_) => {},
        }
    }
}

/// What `assignment` accepts holds.
pub proof fn lemma_assignment_holds(tokens: Seq<TokenView>, pos: int)
    ensures
        expression_holds(tokens, pos, parse_assignment(tokens, pos)),
    decreases tokens.len() - pos, 5nat, 0nat,
{
    lemma_level_holds(tokens, pos, Level::Equality);
    let left = parse_level(tokens, pos, Level::Equality);
    if left.result is Ok && check(tokens, left.pos, TokenType::EQUAL) {
        lemma_assignment_holds(tokens, left.pos + 1);
    }
}

/// What `expression` accepts holds. So no rule ever goes on from a position
/// before its own or past the last token, as the definitions of the rules
/// take care to say, and every expression that is parsed can be evaluated.
pub proof fn lemma_expression_holds(tokens: Seq<TokenView>, pos: int)
    ensures
        expression_holds(tokens, pos, parse_expression(tokens, pos)),
    decreases tokens.len() - pos, 5nat, 1nat,
{
    reveal(parse_expression);
    lemma_assignment_holds(tokens, pos);
}

/// What `statement` accepts holds.
pub proof fn lemma_statement_holds(tokens: Seq<TokenView>, pos: int)
    ensures
        statement_holds(tokens, pos, parse_statement(tokens, pos)),
    decreases tokens.len() - pos, 7nat, 0nat,
{
    if check(tokens, pos, TokenType::PRINT) {
        lemma_expression_holds(tokens, pos + 1);
    } else if check(tokens, pos, TokenType::VAR) {
        if check(tokens, pos + 1, TokenType::IDENTIFIER) && check(
            tokens,
            pos + 2,
            TokenType::EQUAL,
        ) {
            lemma_expression_holds(tokens, pos + 3);
        }
    } else if check(tokens, pos, TokenType::LEFT_BRACE) {
        lemma_block_items_hold(tokens, pos + 1);
        let items = parse_block_items(tokens, pos + 1);
        match items.result {
            Ok(list) => {
                lemma_block_well_formed(list);
            },
            Err(_) => {},
        }
    } else {
        lemma_expression_holds(tokens, pos);
    }
}

/// The statements of a block end at or after their start, within the
/// tokens, and are well formed.
pub proof fn lemma_block_items_hold(tokens: Seq<TokenView>, pos: int)
    requires
        pos <= tokens.len(),
    ensures
        parse_block_items(tokens, pos).result matches Ok(list) ==> pos <= parse_block_items(
            tokens,
            pos,
        ).pos <= tokens.len() && all_well_formed(list),
    decreases tokens.len() - pos, 8nat, 0nat,
{
    if !(at_end(tokens, pos) || check(tokens, pos, TokenType::RIGHT_BRACE)) {
        lemma_statement_holds(tokens, pos);
        let first = parse_statement(tokens, pos);
        match first.result {
            Ok(s) => {
                lemma_block_items_hold(tokens, first.pos);
                let rest = parse_block_items(tokens, first.pos);
                match rest.result {
                    Ok(list) => {
                        let all = seq![s] + list;
                        assert forall|i: int| 0 <= i < all.len() implies statement_well_formed(
                            #[trigger] all[i],
                        ) by {
                            if i > 0 {
                                assert(all[i] == list[i - 1]);
                            }
                        }
                    },
                    Err(_) => {},
                }
            },
            Err(_) => {},
        }
    }
}

/// Every statement of a program that is parsed is well formed, so it can
/// be run.
pub proof fn lemma_program_holds(tokens: Seq<TokenView>, pos: int)
    ensures
        all_well_formed(parse_program(tokens, pos).items),
    decreases tokens.len() - pos,
{
    if !at_end(tokens, pos) {
        lemma_statement_holds(tokens, pos);
        let first = parse_statement(tokens, pos);
        match first.result {
            Ok(s) => {
                lemma_program_holds(tokens, first.pos);
                let rest = parse_program(tokens, first.pos);
                let all = seq![s] + rest.items;
                assert forall|i: int| 0 <= i < all.len() implies statement_well_formed(
                    #[trigger] all[i],
                ) by {
                    if i > 0 {
                        assert(all[i] == rest.items[i - 1]);
                    }
                }
            },
            Err(_) => {},
        }
    }
}

} // verus!
