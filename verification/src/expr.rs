//! Values and expressions: what an expression is, how it is evaluated, how
//! it is parsed from tokens and how it is printed.

use vstd::prelude::*;
use crate::text::{Fragment, FragmentView, NumberForm, fragment_views, plain_number};
use crate::token::{Token, TokenType, TokenView, token_views, text_of};
use crate::error::{RuntimeError, RuntimeErrorView, ParseError, ParseErrorKind, error_at};
use crate::grammar::{
    Parsed, Level, at_end, check, operator_at, level_rank, number_of, string_of, parse_primary,
    parse_unary, parse_operand, parse_level, parse_level_rest, parse_assignment, parse_expression,
    parse_expressions,
};
use crate::environment::{State, Scopes, lookup, assigned};
use crate::number::{
    Arithmetic, arithmetic_result, number_lt, number_le, negated, magnitude, divided_by_zero,
};

verus! {

/// A runtime value.
#[derive(Debug)]
pub enum Literal {
    Bool(bool),
    Nil,
    /// An IEEE-754 binary64 number, held as its bit pattern.
    Number(u64),
    String(String),
}

/// The mathematical value of a [`Literal`].
pub ghost enum LiteralView {
    Bool(bool),
    Nil,
    Number(u64),
    String(Seq<char>),
}

impl View for Literal {
    type V = LiteralView;

    open spec fn view(&self) -> LiteralView {
        match self {
            Literal::Bool(b) => LiteralView::Bool(*b),
            Literal::Nil => LiteralView::Nil,
            Literal::Number(n) => LiteralView::Number(*n),
            Literal::String(s) => LiteralView::String(s@),
        }
    }
}

impl Clone for Literal {
    fn clone(&self) -> (r: Literal)
        ensures
            r@ == self@,
    {
        match self {
            Literal::Bool(b) => Literal::Bool(*b),
            Literal::Nil => Literal::Nil,
            Literal::Number(n) => Literal::Number(*n),
            Literal::String(s) => Literal::String(s.clone()),
        }
    }
}

/// Truthiness: `nil` and `false` are falsey, every other value is truthy.
pub open spec fn truthy(v: LiteralView) -> bool {
    match v {
        LiteralView::Nil => false,
        LiteralView::Bool(b) => b,
        _ => true,
    }
}

/// Equality of values: both of one variant and equal within it. Numbers are
/// compared as IEEE numbers, so a NaN equals nothing, itself included.
pub open spec fn values_equal(a: LiteralView, b: LiteralView) -> bool {
    match (a, b) {
        (LiteralView::Nil, LiteralView::Nil) => true,
        (LiteralView::Bool(x), LiteralView::Bool(y)) => x == y,
        (LiteralView::Number(x), LiteralView::Number(y)) => crate::number::number_eq(x, y),
        (LiteralView::String(x), LiteralView::String(y)) => x == y,
        _ => false,
    }
}

/// The form in which `print` writes a value.
pub open spec fn printed(v: LiteralView) -> FragmentView {
    match v {
        LiteralView::String(s) => FragmentView::Text(s),
        LiteralView::Nil => FragmentView::Text("nil"@),
        LiteralView::Bool(b) => FragmentView::Text(
            if b {
                "true"@
            } else {
                "false"@
            },
        ),
        LiteralView::Number(n) => plain_number(n),
    }
}

/// The form in which a literal stands in the printed form of an expression:
/// as `print` writes it, but a number always has a decimal point, or an
/// exponent.
pub open spec fn displayed(v: LiteralView) -> FragmentView {
    match v {
        LiteralView::Number(n) => FragmentView::Number(n, NumberForm::Exponent),
        _ => printed(v),
    }
}

impl Literal {
    /// The number that this value is, if it is one.
    pub fn to_number(&self) -> (n: Option<u64>)
        ensures
            n == match self@ {
                LiteralView::Number(x) => Some(x),
                _ => None::<u64>,
            },
    {
        match self {
            Literal::Number(n) => Some(*n),
            _ => None,
        }
    }

    /// The truthiness of this value.
    pub fn to_bool(&self) -> (b: bool)
        ensures
            b == truthy(self@),
    {
        match self {
            Literal::String(_s) => true,
            Literal::Nil => false,
            Literal::Number(_n) => true,
            Literal::Bool(b) => *b,
        }
    }

    /// Whether this value equals `other`.
    pub fn equals(&self, other: &Literal) -> (r: bool)
        ensures
            r == values_equal(self@, other@),
    {
        match (self, other) {
            (Literal::Nil, Literal::Nil) => true,
            (Literal::Bool(x), Literal::Bool(y)) => *x == *y,
            (Literal::Number(x), Literal::Number(y)) => crate::number::equal(*x, *y),
            (Literal::String(x), Literal::String(y)) => *x == *y,
            _ => false,
        }
    }

    /// The form in which `print` writes this value.
    pub fn print(&self) -> (f: Fragment)
        ensures
            f@ == printed(self@),
    {
        match self {
            Literal::String(s) => Fragment::Text(s.clone()),
            Literal::Nil => Fragment::from_text("nil"),
            Literal::Bool(b) => if *b {
                Fragment::from_text("true")
            } else {
                Fragment::from_text("false")
            },
            Literal::Number(n) => Fragment::plain(*n),
        }
    }

    /// The form in which this value stands in a printed expression.
    pub fn display(&self) -> (f: Fragment)
        ensures
            f@ == displayed(self@),
    {
        match self {
            Literal::Number(n) => Fragment::Number(*n, NumberForm::Exponent),
            _ => self.print(),
        }
    }
}

/// An expression. A tree owns its children.
#[derive(Debug)]
pub enum Expression {
    Literal(Literal),
    Unary { operator: Token, expr: Box<Expression> },
    Binary { operator: Token, left_expr: Box<Expression>, right_expr: Box<Expression> },
    Grouping { expr: Box<Expression> },
    Variable { variable: Token },
    Assignment { name: Token, value: Box<Expression> },
}

/// The mathematical value of an [`Expression`].
pub ghost enum ExpressionView {
    Literal(LiteralView),
    Unary { operator: TokenView, expr: Box<ExpressionView> },
    Binary { operator: TokenView, left_expr: Box<ExpressionView>, right_expr: Box<ExpressionView> },
    Grouping { expr: Box<ExpressionView> },
    Variable { variable: TokenView },
    Assignment { name: TokenView, value: Box<ExpressionView> },
}

impl Expression {
    /// The value of this tree, node by node.
    pub open spec fn model(&self) -> ExpressionView
        decreases self,
    {
        match self {
            Expression::Literal(v) => ExpressionView::Literal(v@),
            Expression::Unary { operator, expr } => ExpressionView::Unary {
                operator: operator@,
                expr: Box::new(expr.model()),
            },
            Expression::Binary { operator, left_expr, right_expr } => ExpressionView::Binary {
                operator: operator@,
                left_expr: Box::new(left_expr.model()),
                right_expr: Box::new(right_expr.model()),
            },
            Expression::Grouping { expr } => ExpressionView::Grouping {
                expr: Box::new(expr.model()),
            },
            Expression::Variable { variable } => ExpressionView::Variable { variable: variable@ },
            Expression::Assignment { name, value } => ExpressionView::Assignment {
                name: name@,
                value: Box::new(value.model()),
            },
        }
    }
}

impl View for Expression {
    type V = ExpressionView;

    open spec fn view(&self) -> ExpressionView {
        self.model()
    }
}

/// The values of a sequence of expressions, in order.
pub open spec fn expression_views(exprs: Seq<Expression>) -> Seq<ExpressionView> {
    exprs.map_values(|e: Expression| e@)
}

impl Clone for Expression {
    fn clone(&self) -> (r: Expression)
        ensures
            r@ == self@,
        decreases self,
    {
        match self {
            Expression::Literal(v) => Expression::Literal(v.clone()),
            Expression::Unary { operator, expr } => Expression::Unary {
                operator: operator.clone(),
                expr: Box::new((**expr).clone()),
            },
            Expression::Binary { operator, left_expr, right_expr } => Expression::Binary {
                operator: operator.clone(),
                left_expr: Box::new((**left_expr).clone()),
                right_expr: Box::new((**right_expr).clone()),
            },
            Expression::Grouping { expr } => Expression::Grouping {
                expr: Box::new((**expr).clone()),
            },
            Expression::Variable { variable } => Expression::Variable {
                variable: variable.clone(),
            },
            Expression::Assignment { name, value } => Expression::Assignment {
                name: name.clone(),
                value: Box::new((**value).clone()),
            },
        }
    }
}

/// The operators that a unary expression can have.
pub open spec fn is_unary_operator(kind: TokenType) -> bool {
    kind == TokenType::MINUS || kind == TokenType::BANG
}

/// The arithmetic operation that an operator stands for, if it is one.
pub open spec fn arithmetic_of(kind: TokenType) -> Option<Arithmetic> {
    match kind {
        TokenType::PLUS => Some(Arithmetic::Add),
        TokenType::MINUS => Some(Arithmetic::Subtract),
        TokenType::STAR => Some(Arithmetic::Multiply),
        TokenType::SLASH => Some(Arithmetic::Divide),
        _ => None,
    }
}

/// What a comparison operator says of two numbers.
pub open spec fn comparison_of(kind: TokenType, a: u64, b: u64) -> Option<bool> {
    match kind {
        TokenType::LESS => Some(number_lt(a, b)),
        TokenType::LESS_EQUAL => Some(number_le(a, b)),
        TokenType::GREATER => Some(number_lt(b, a)),
        TokenType::GREATER_EQUAL => Some(number_le(b, a)),
        _ => None,
    }
}

/// The operators that a binary expression can have.
pub open spec fn is_binary_operator(kind: TokenType) -> bool {
    ||| kind == TokenType::EQUAL_EQUAL
    ||| kind == TokenType::BANG_EQUAL
    ||| arithmetic_of(kind) is Some
    ||| comparison_of(kind, 0, 0) is Some
}

/// Whether every operator in the tree is one that its node can have.
pub open spec fn well_formed(e: ExpressionView) -> bool
    decreases e,
{
    match e {
        ExpressionView::Literal(_) => true,
        ExpressionView::Unary { operator, expr } => is_unary_operator(operator.token_type)
            && well_formed(*expr),
        ExpressionView::Binary { operator, left_expr, right_expr } => is_binary_operator(
            operator.token_type,
        ) && well_formed(*left_expr) && well_formed(*right_expr),
        ExpressionView::Grouping { expr } => well_formed(*expr),
        ExpressionView::Variable { variable } => true,
        ExpressionView::Assignment { name, value } => well_formed(*value),
    }
}

/// The number of nodes on the longest path from the root to a leaf.
pub open spec fn height(e: ExpressionView) -> nat
    decreases e,
{
    match e {
        ExpressionView::Literal(_) => 1,
        ExpressionView::Unary { operator, expr } => 1 + height(*expr),
        ExpressionView::Binary { operator, left_expr, right_expr } => 1 + if height(*left_expr)
            >= height(*right_expr) {
            height(*left_expr)
        } else {
            height(*right_expr)
        },
        ExpressionView::Grouping { expr } => 1 + height(*expr),
        ExpressionView::Variable { variable } => 1,
        ExpressionView::Assignment { name, value } => 1 + height(*value),
    }
}

/// The outcome of a unary operator on a value: `-` negates a number and
/// rejects everything else, `!` negates the truthiness of any value.
pub open spec fn unary_result(kind: TokenType, v: LiteralView) -> Result<
    LiteralView,
    RuntimeErrorView,
> {
    if kind == TokenType::MINUS {
        match v {
            LiteralView::Number(n) => Ok(LiteralView::Number(negated(n))),
            _ => Err(RuntimeErrorView::OperandMustBeNumber),
        }
    } else {
        Ok(LiteralView::Bool(!truthy(v)))
    }
}

/// The outcome of a binary operator on two values.
///
/// `==` and `!=` compare any two values. `+` adds two numbers or joins two
/// strings. `-`, `*`, `/` and the comparisons take two numbers. Every other
/// pairing is an error.
pub open spec fn binary_result(kind: TokenType, l: LiteralView, r: LiteralView) -> Result<
    LiteralView,
    RuntimeErrorView,
> {
    if kind == TokenType::EQUAL_EQUAL {
        Ok(LiteralView::Bool(values_equal(l, r)))
    } else if kind == TokenType::BANG_EQUAL {
        Ok(LiteralView::Bool(!values_equal(l, r)))
    } else {
        match (l, r) {
            (LiteralView::Number(a), LiteralView::Number(b)) => {
                if arithmetic_of(kind) is Some {
                    Ok(LiteralView::Number(arithmetic_result(arithmetic_of(kind)->0, a, b)))
                } else {
                    Ok(LiteralView::Bool(comparison_of(kind, a, b) == Some(true)))
                }
            },
            (LiteralView::String(a), LiteralView::String(b)) => {
                if kind == TokenType::PLUS {
                    Ok(LiteralView::String(a + b))
                } else {
                    Err(RuntimeErrorView::OperandsMustBeNumbers)
                }
            },
            _ => {
                if kind == TokenType::PLUS {
                    Err(RuntimeErrorView::OperandsMustBeNumbersOrStrings)
                } else {
                    Err(RuntimeErrorView::OperandsMustBeNumbers)
                }
            },
        }
    }
}

/// Division by a zero is no error: where `kind` is `/` and `l` and `r` are
/// numbers, the divisor a zero, the value `v` is an infinity or a NaN, as
/// `divided_by_zero` says.
pub open spec fn quotient_rule(kind: TokenType, l: LiteralView, r: LiteralView, v: LiteralView)
    -> bool {
    match (l, r, v) {
        (LiteralView::Number(a), LiteralView::Number(b), LiteralView::Number(q)) => kind
            == TokenType::SLASH && magnitude(b) == 0 ==> divided_by_zero(a, b, q),
        _ => true,
    }
}

/// The same of the value `v` of an expression that is a division, or a
/// division in parentheses: where both operands have a value, the rule holds
/// of the two values and `v`.
pub open spec fn root_quotient_rule(e: ExpressionView, env: Scopes, v: LiteralView) -> bool
    decreases e,
{
    match e {
        ExpressionView::Binary { operator, left_expr, right_expr } => {
            let left = evaluate(*left_expr, env);
            let right = evaluate(*right_expr, left.env);
            match (left.result, right.result) {
                (Ok(l), Ok(r)) => quotient_rule(operator.token_type, l, r, v),
                _ => true,
            }
        },
        ExpressionView::Grouping { expr } => root_quotient_rule(*expr, env, v),
        _ => true,
    }
}

/// What evaluating leaves behind: the environment, and a value or the error
/// that ended the evaluation.
pub ghost struct Evaluated {
    pub env: Scopes,
    pub result: Result<LiteralView, RuntimeErrorView>,
}

/// The evaluation of an expression in an environment. Operands are evaluated
/// from left to right, and the first error ends the evaluation; what was
/// assigned before it stays assigned.
pub open spec fn evaluate(e: ExpressionView, env: Scopes) -> Evaluated
    decreases e,
{
    match e {
        ExpressionView::Literal(v) => Evaluated { env, result: Ok(v) },
        ExpressionView::Grouping { expr } => evaluate(*expr, env),
        ExpressionView::Variable { variable } => Evaluated {
            env,
            result: match lookup(env, variable.lexeme) {
                Some(v) => Ok(v),
                None => Err(RuntimeErrorView::UndefinedVariable(variable.lexeme)),
            },
        },
        ExpressionView::Assignment { name, value } => {
            let right = evaluate(*value, env);
            match right.result {
                Ok(v) => match assigned(right.env, name.lexeme, v) {
                    Some(after) => Evaluated { env: after, result: Ok(v) },
                    None => Evaluated {
                        env: right.env,
                        result: Err(RuntimeErrorView::UndefinedVariable(name.lexeme)),
                    },
                },
                Err(_) => right,
            }
        },
        ExpressionView::Unary { operator, expr } => {
            let operand = evaluate(*expr, env);
            match operand.result {
                Ok(v) => Evaluated {
                    env: operand.env,
                    result: unary_result(operator.token_type, v),
                },
                Err(_) => operand,
            }
        },
        ExpressionView::Binary { operator, left_expr, right_expr } => {
            let left = evaluate(*left_expr, env);
            match left.result {
                Ok(l) => {
                    let right = evaluate(*right_expr, left.env);
                    match right.result {
                        Ok(r) => Evaluated {
                            env: right.env,
                            result: binary_result(operator.token_type, l, r),
                        },
                        Err(_) => right,
                    }
                },
                Err(_) => left,
            }
        },
    }
}

/// The value of the outcome of an evaluation.
pub open spec fn outcome_view(r: Result<Literal, RuntimeError>) -> Result<
    LiteralView,
    RuntimeErrorView,
> {
    match r {
        Ok(v) => Ok(v@),
        Err(e) => Err(e@),
    }
}

/// Applies a unary operator to a value.
pub fn apply_unary(kind: TokenType, value: Literal) -> (r: Result<Literal, RuntimeError>)
    requires
        is_unary_operator(kind),
    ensures
        outcome_view(r) == unary_result(kind, value@),
{
    match kind {
        TokenType::MINUS => match value.to_number() {
            Some(n) => Ok(Literal::Number(crate::number::negate(n))),
            None => Err(RuntimeError::OperandMustBeNumber),
        },
        _ => Ok(Literal::Bool(!value.to_bool())),
    }
}

/// Applies a binary operator to two values. A division by a zero is no
/// error: it gives an infinity or a NaN.
pub fn apply_binary(kind: TokenType, left: Literal, right: Literal) -> (r: Result<
    Literal,
    RuntimeError,
>)
    requires
        is_binary_operator(kind),
    ensures
        outcome_view(r) == binary_result(kind, left@, right@),
        r matches Ok(v) ==> quotient_rule(kind, left@, right@, v@),
{
    match kind {
        TokenType::EQUAL_EQUAL => Ok(Literal::Bool(left.equals(&right))),
        TokenType::BANG_EQUAL => Ok(Literal::Bool(!left.equals(&right))),
        TokenType::PLUS => match (left, right) {
            (Literal::Number(a), Literal::Number(b)) => Ok(
                Literal::Number(crate::number::arithmetic(Arithmetic::Add, a, b)),
            ),
            (Literal::String(a), Literal::String(b)) => Ok(Literal::String(a.concat(b.as_str()))),
            _ => Err(RuntimeError::OperandsMustBeNumbersOrStrings),
        },
        _ => match (left.to_number(), right.to_number()) {
            (Some(a), Some(b)) => match kind {
                TokenType::MINUS => Ok(
                    Literal::Number(crate::number::arithmetic(Arithmetic::Subtract, a, b)),
                ),
                TokenType::STAR => Ok(
                    Literal::Number(crate::number::arithmetic(Arithmetic::Multiply, a, b)),
                ),
                TokenType::SLASH => Ok(
                    Literal::Number(crate::number::arithmetic(Arithmetic::Divide, a, b)),
                ),
                TokenType::LESS => Ok(Literal::Bool(crate::number::less(a, b))),
                TokenType::LESS_EQUAL => Ok(Literal::Bool(crate::number::less_or_equal(a, b))),
                TokenType::GREATER => Ok(Literal::Bool(crate::number::greater(a, b))),
                _ => Ok(Literal::Bool(crate::number::greater_or_equal(a, b))),
            },
            _ => Err(RuntimeError::OperandsMustBeNumbers),
        },
    }
}

/// Evaluates the operand, then applies the operator to its value.
pub fn eval_unary(operator: &Token, expr: &Expression, env: &mut State) -> (r: Result<
    Literal,
    RuntimeError,
>)
    requires
        is_unary_operator(operator.token_type),
        well_formed(expr@),
    ensures
        final(env)@ == evaluate(expr@, old(env)@).env,
        outcome_view(r) == match evaluate(expr@, old(env)@).result {
            Ok(v) => unary_result(operator.token_type, v),
            Err(e) => Err(e),
        },
    decreases height(expr@), 1nat,
{
    match expr.accept(env) {
        Ok(value) => apply_unary(operator.token_type, value),
        Err(e) => Err(e),
    }
}

/// Evaluates the left operand, then the right one, then applies the operator
/// to the two values.
pub fn eval_binary(
    operator: &Token,
    left_expr: &Expression,
    right_expr: &Expression,
    env: &mut State,
) -> (r: Result<Literal, RuntimeError>)
    requires
        is_binary_operator(operator.token_type),
        well_formed(left_expr@),
        well_formed(right_expr@),
    ensures
        ({
            let left = evaluate(left_expr@, old(env)@);
            match left.result {
                Ok(l) => {
                    let right = evaluate(right_expr@, left.env);
                    &&& final(env)@ == right.env
                    &&& outcome_view(r) == match right.result {
                        Ok(v) => binary_result(operator.token_type, l, v),
                        Err(e) => Err(e),
                    }
                },
                Err(e) => final(env)@ == left.env && outcome_view(r) == Err::<
                    LiteralView,
                    RuntimeErrorView,
                >(e),
            }
        }),
        r matches Ok(v) ==> ({
            let left = evaluate(left_expr@, old(env)@);
            let right = evaluate(right_expr@, left.env);
            match (left.result, right.result) {
                (Ok(l), Ok(rv)) => quotient_rule(operator.token_type, l, rv, v@),
                _ => true,
            }
        }),
    decreases
            if height(left_expr@) >= height(right_expr@) {
                height(left_expr@)
            } else {
                height(right_expr@)
            },
            1nat,
{
    let left = match left_expr.accept(env) {
        Ok(value) => value,
        Err(e) => {
            return Err(e);
        },
    };
    let right = match right_expr.accept(env) {
        Ok(value) => value,
        Err(e) => {
            return Err(e);
        },
    };
    apply_binary(operator.token_type, left, right)
}

/// Evaluates what the parentheses hold.
pub fn eval_group(expr: &Expression, env: &mut State) -> (r: Result<Literal, RuntimeError>)
    requires
        well_formed(expr@),
    ensures
        final(env)@ == evaluate(expr@, old(env)@).env,
        outcome_view(r) == evaluate(expr@, old(env)@).result,
        r matches Ok(v) ==> root_quotient_rule(expr@, old(env)@, v@),
    decreases height(expr@), 1nat,
{
    return expr.accept(env);
}

/// A literal is its own value.
pub fn eval_literal(lit: Literal) -> (r: Literal)
    ensures
        r@ == lit@,
{
    return lit;
}

/// Reads the variable that the token names.
pub fn eval_variable(variable: &Token, env: &State) -> (r: Result<Literal, RuntimeError>)
    ensures
        outcome_view(r) == match lookup(env@, variable@.lexeme) {
            Some(v) => Ok::<LiteralView, RuntimeErrorView>(v),
            None => Err(RuntimeErrorView::UndefinedVariable(variable@.lexeme)),
        },
{
    return crate::environment::get_env(env, variable.lexeme.clone());
}

/// Evaluates the right side, then assigns its value to `name` in the
/// innermost scope that binds it. The value is the value of the expression.
pub fn eval_assignment(name: String, value: &Expression, env: &mut State) -> (r: Result<
    Literal,
    RuntimeError,
>)
    requires
        well_formed(value@),
    ensures
        ({
            let right = evaluate(value@, old(env)@);
            match right.result {
                Ok(v) => match assigned(right.env, name@, v) {
                    Some(after) => final(env)@ == after && outcome_view(r) == Ok::<
                        LiteralView,
                        RuntimeErrorView,
                    >(v),
                    None => final(env)@ == right.env && outcome_view(r) == Err::<
                        LiteralView,
                        RuntimeErrorView,
                    >(RuntimeErrorView::UndefinedVariable(name@)),
                },
                Err(e) => final(env)@ == right.env && outcome_view(r) == Err::<
                    LiteralView,
                    RuntimeErrorView,
                >(e),
            }
        }),
    decreases height(value@), 1nat,
{
    let val = match value.accept(env) {
        Ok(v) => v,
        Err(e) => {
            return Err(e);
        },
    };
    match crate::environment::assign_env(env, name, val.clone()) {
        Ok(_) => Ok(val),
        Err(e) => Err(e),
    }
}

impl Expression {
    /// Evaluates this expression in `env`.
    pub fn accept(&self, env: &mut State) -> (r: Result<Literal, RuntimeError>)
        requires
            well_formed(self@),
        ensures
            final(env)@ == evaluate(self@, old(env)@).env,
            outcome_view(r) == evaluate(self@, old(env)@).result,
            r matches Ok(v) ==> root_quotient_rule(self@, old(env)@, v@),
        decreases height(self@), 0nat,
    {
        match self {
            Expression::Binary { operator, left_expr, right_expr } => eval_binary(
                operator,
                &**left_expr,
                &**right_expr,
                env,
            ),
            Expression::Grouping { expr } => eval_group(&**expr, env),
            Expression::Unary { operator, expr } => eval_unary(operator, &**expr, env),
            Expression::Literal(lit) => Ok(eval_literal(lit.clone())),
            Expression::Variable { variable } => eval_variable(variable, env),
            Expression::Assignment { name, value } => eval_assignment(
                name.lexeme.clone(),
                &**value,
                env,
            ),
        }
    }

    /// Whether every operator in this tree is one that its node can have.
    pub fn is_well_formed(&self) -> (r: bool)
        ensures
            r == well_formed(self@),
        decreases self,
    {
        match self {
            Expression::Literal(_) => true,
            Expression::Unary { operator, expr } => (operator.token_type == TokenType::MINUS
                || operator.token_type == TokenType::BANG) && expr.is_well_formed(),
            Expression::Binary { operator, left_expr, right_expr } => {
                let kind = operator.token_type;
                let known = kind == TokenType::EQUAL_EQUAL || kind == TokenType::BANG_EQUAL || kind
                    == TokenType::PLUS || kind == TokenType::MINUS || kind == TokenType::STAR
                    || kind == TokenType::SLASH || kind == TokenType::LESS || kind
                    == TokenType::LESS_EQUAL || kind == TokenType::GREATER || kind
                    == TokenType::GREATER_EQUAL;
                known && left_expr.is_well_formed() && right_expr.is_well_formed()
            },
            Expression::Grouping { expr } => expr.is_well_formed(),
            Expression::Variable { variable } => true,
            Expression::Assignment { name, value } => value.is_well_formed(),
        }
    }
}

/// The number that the payload of a `NUMBER` token stands for.
pub fn number_from(literal: &Option<String>) -> (bits: u64)
    ensures
        bits == number_of(text_of(*literal)),
{
    match literal {
        Some(text) => crate::number::value_or_zero(crate::number::decimal_value(text.as_str())),
        None => 0,
    }
}

/// The content that the payload of a `STRING` token stands for.
pub fn string_from(literal: &Option<String>) -> (content: String)
    ensures
        content@ == string_of(text_of(*literal)),
{
    match literal {
        Some(text) => text.clone(),
        None => String::new(),
    }
}

/// What a parsing method returned and where it left the parser, as the
/// grammar states it.
pub open spec fn parsed_as(r: Result<Expression, ParseError>, pos: int) -> Parsed<ExpressionView> {
    Parsed {
        pos,
        result: match r {
            Ok(e) => Ok(e@),
            Err(error) => Err(error@),
        },
    }
}

/// The parser of expressions: the tokens, a position in them, and the
/// expressions parsed so far.
pub struct AST {
    tokens: Vec<Token>,
    exprs: Vec<Expression>,
    curr_idx: usize,
}

impl AST {
    #[verifier::type_invariant]
    spec fn in_bounds(&self) -> bool {
        self.curr_idx <= self.tokens.len()
    }

    /// The tokens that are parsed.
    pub closed spec fn tokens_view(&self) -> Seq<TokenView> {
        token_views(self.tokens@)
    }

    /// The position of the next token.
    pub closed spec fn position(&self) -> int {
        self.curr_idx as int
    }

    /// The expressions collected so far.
    pub closed spec fn parsed(&self) -> Seq<ExpressionView> {
        expression_views(self.exprs@)
    }

    /// Whether `later` is this parser after it read on: the same tokens and
    /// collected expressions, at a position that is not before this one.
    pub open spec fn read_on(&self, later: &AST) -> bool {
        &&& later.tokens_view() == self.tokens_view()
        &&& later.parsed() == self.parsed()
        &&& self.position() <= later.position() <= self.tokens_view().len()
    }

    /// A parser at the start of `tokens`.
    pub fn new(tokens: Vec<Token>) -> (ast: AST)
        ensures
            ast.tokens_view() == token_views(tokens@),
            ast.position() == 0,
            ast.parsed() == Seq::<ExpressionView>::empty(),
    {
        let ast = AST { curr_idx: 0, tokens, exprs: Vec::new() };
        assert(ast.parsed() =~= Seq::<ExpressionView>::empty());
        return ast;
    }

    /// Steps over one token. Behind the last token there is nothing to step
    /// over, and the parser stays where it is.
    pub fn advance(&mut self)
        ensures
            final(self).position() == if old(self).position() < old(self).tokens_view().len() {
                old(self).position() + 1
            } else {
                old(self).position()
            },
            old(self).read_on(final(self)),
    {
        proof {
            use_type_invariant(&*self);
        }
        if self.curr_idx < self.tokens.len() {
            self.curr_idx += 1;
        }
    }

    /// Whether the input ends at the position.
    pub fn is_at_end(&self) -> (r: bool)
        ensures
            r == at_end(self.tokens_view(), self.position()),
            0 <= self.position() <= self.tokens_view().len(),
    {
        proof {
            use_type_invariant(self);
        }
        if self.curr_idx >= self.tokens.len() {
            return true;
        }
        return self.tokens[self.curr_idx].token_type == TokenType::EOF;
    }

    /// A copy of the token at the position.
    pub fn peek(&self) -> (t: Token)
        requires
            self.position() < self.tokens_view().len(),
        ensures
            t@ == self.tokens_view()[self.position()],
    {
        return self.tokens[self.curr_idx].clone();
    }

    /// Whether the token at the position is of kind `token_type`.
    pub fn check(&self, token_type: TokenType) -> (r: bool)
        ensures
            r == check(self.tokens_view(), self.position(), token_type),
            0 <= self.position() <= self.tokens_view().len(),
    {
        if Self::is_at_end(self) {
            return false;
        }
        return self.tokens[self.curr_idx].token_type == token_type;
    }

    /// Whether the token at the position is of one of the kinds `targets`.
    pub fn match_type(&self, targets: &[TokenType]) -> (r: bool)
        ensures
            r == exists|i: int|
                0 <= i < targets@.len() && check(
                    self.tokens_view(),
                    self.position(),
                    #[trigger] targets@[i],
                ),
            0 <= self.position() <= self.tokens_view().len(),
    {
        proof {
            use_type_invariant(self);
        }
        let mut i: usize = 0;
        while i < targets.len()
            invariant
                i <= targets@.len(),
                forall|j: int|
                    0 <= j < i ==> !check(
                        self.tokens_view(),
                        self.position(),
                        #[trigger] targets@[j],
                    ),
            decreases targets.len() - i,
        {
            if Self::check(self, targets[i]) {
                return true;
            }
            i += 1;
        }
        return false;
    }

    /// Steps over the token at the position if it is of kind
    /// `expected_token`, and reports `error` at it if it is not.
    pub fn consume(&mut self, expected_token: TokenType, error: ParseErrorKind) -> (r: Result<
        Token,
        ParseError,
    >)
        ensures
            old(self).read_on(final(self)),
            match r {
                Ok(token) => {
                    &&& check(old(self).tokens_view(), old(self).position(), expected_token)
                    &&& final(self).position() == old(self).position() + 1
                    &&& token@ == old(self).tokens_view()[old(self).position()]
                },
                Err(e) => {
                    &&& !check(old(self).tokens_view(), old(self).position(), expected_token)
                    &&& final(self).position() == old(self).position()
                    &&& e@ == error_at(old(self).tokens_view(), old(self).position(), error)
                },
            },
    {
        if !Self::check(self, expected_token) {
            return Err(ParseError::at(&self.tokens, self.curr_idx, error));
        }
        let token = Self::peek(self);
        Self::advance(self);
        return Ok(token);
    }

    /// Whether an operator of `level` stands at the position.
    fn operator_ahead(&self, level: Level) -> (r: bool)
        ensures
            r == operator_at(self.tokens_view(), self.position(), level),
            0 <= self.position() <= self.tokens_view().len(),
    {
        if Self::is_at_end(self) {
            return false;
        }
        let kind = self.tokens[self.curr_idx].token_type;
        match level {
            Level::Equality => kind == TokenType::BANG_EQUAL || kind == TokenType::EQUAL_EQUAL,
            Level::Comparison => kind == TokenType::LESS_EQUAL || kind == TokenType::LESS || kind
                == TokenType::GREATER || kind == TokenType::GREATER_EQUAL,
            Level::Term => kind == TokenType::PLUS || kind == TokenType::MINUS,
            Level::Factor => kind == TokenType::STAR || kind == TokenType::SLASH,
        }
    }

    /// Parses an operand of the operators of `level`.
    fn operand(&mut self, level: Level) -> (r: Result<Expression, ParseError>)
        ensures
            old(self).read_on(final(self)),
            parsed_as(r, final(self).position()) == parse_operand(
                old(self).tokens_view(),
                old(self).position(),
                level,
            ),
            r is Ok ==> old(self).position() < final(self).position(),
            r matches Ok(e) ==> well_formed(e@),
        decreases old(self).tokens_view().len() - old(self).position(), level_rank(level), 0nat,
    {
        match level {
            Level::Equality => Self::comparision(self),
            Level::Comparison => Self::term(self),
            Level::Term => Self::factor(self),
            Level::Factor => Self::unary(self),
        }
    }

    /// Parses one level of left-associative binary operators.
    fn binary_level(&mut self, level: Level) -> (r: Result<Expression, ParseError>)
        ensures
            old(self).read_on(final(self)),
            parsed_as(r, final(self).position()) == parse_level(
                old(self).tokens_view(),
                old(self).position(),
                level,
            ),
            r is Ok ==> old(self).position() < final(self).position(),
            r matches Ok(e) ==> well_formed(e@),
        decreases old(self).tokens_view().len() - old(self).position(), level_rank(level), 2nat,
    {
        let ghost tokens = self.tokens_view();
        let ghost start = self.position();
        let mut left_expr: Expression = match Self::operand(self, level) {
            Ok(e) => e,
            Err(error) => {
                return Err(error);
            },
        };
        while Self::operator_ahead(self, level)
            invariant
                old(self).read_on(self),
                tokens == old(self).tokens_view(),
                start == old(self).position(),
                start < self.position(),
                well_formed(left_expr@),
                parse_level_rest(tokens, self.position(), level, left_expr@) == parse_level(
                    tokens,
                    start,
                    level,
                ),
            decreases tokens.len() - self.position(),
        {
            let ghost at = self.position();
            let operator = Self::peek(self);
            Self::advance(self);
            let right_expr: Expression = match Self::operand(self, level) {
                Ok(e) => e,
                Err(error) => {
                    return Err(error);
                },
            };
            left_expr =
            Expression::Binary {
                operator,
                left_expr: Box::new(left_expr),
                right_expr: Box::new(right_expr),
            };
            proof {
                assert(is_binary_operator(tokens[at].token_type));
            }
        }
        return Ok(left_expr);
    }

    fn equality(&mut self) -> (r: Result<Expression, ParseError>)
        ensures
            old(self).read_on(final(self)),
            parsed_as(r, final(self).position()) == parse_level(
                old(self).tokens_view(),
                old(self).position(),
                Level::Equality,
            ),
            r is Ok ==> old(self).position() < final(self).position(),
            r matches Ok(e) ==> well_formed(e@),
        decreases old(self).tokens_view().len() - old(self).position(), 4nat, 3nat,
    {
        Self::binary_level(self, Level::Equality)
    }

    fn comparision(&mut self) -> (r: Result<Expression, ParseError>)
        ensures
            old(self).read_on(final(self)),
            parsed_as(r, final(self).position()) == parse_level(
                old(self).tokens_view(),
                old(self).position(),
                Level::Comparison,
            ),
            r is Ok ==> old(self).position() < final(self).position(),
            r matches Ok(e) ==> well_formed(e@),
        decreases old(self).tokens_view().len() - old(self).position(), 3nat, 3nat,
    {
        Self::binary_level(self, Level::Comparison)
    }

    fn term(&mut self) -> (r: Result<Expression, ParseError>)
        ensures
            old(self).read_on(final(self)),
            parsed_as(r, final(self).position()) == parse_level(
                old(self).tokens_view(),
                old(self).position(),
                Level::Term,
            ),
            r is Ok ==> old(self).position() < final(self).position(),
            r matches Ok(e) ==> well_formed(e@),
        decreases old(self).tokens_view().len() - old(self).position(), 2nat, 3nat,
    {
        Self::binary_level(self, Level::Term)
    }

    fn factor(&mut self) -> (r: Result<Expression, ParseError>)
        ensures
            old(self).read_on(final(self)),
            parsed_as(r, final(self).position()) == parse_level(
                old(self).tokens_view(),
                old(self).position(),
                Level::Factor,
            ),
            r is Ok ==> old(self).position() < final(self).position(),
            r matches Ok(e) ==> well_formed(e@),
        decreases old(self).tokens_view().len() - old(self).position(), 1nat, 3nat,
    {
        Self::binary_level(self, Level::Factor)
    }

    fn unary(&mut self) -> (r: Result<Expression, ParseError>)
        ensures
            old(self).read_on(final(self)),
            parsed_as(r, final(self).position()) == parse_unary(
                old(self).tokens_view(),
                old(self).position(),
            ),
            r is Ok ==> old(self).position() < final(self).position(),
            r matches Ok(e) ==> well_formed(e@),
        decreases old(self).tokens_view().len() - old(self).position(), 0nat, 1nat,
    {
        if Self::check(self, TokenType::MINUS) || Self::check(self, TokenType::BANG) {
            let operator = Self::peek(self);
            Self::advance(self);
            let expr: Expression = match Self::unary(self) {
                Ok(e) => e,
                Err(error) => {
                    return Err(error);
                },
            };
            let expr = Expression::Unary { operator, expr: Box::new(expr) };
            return Ok(expr);
        }
        return Self::primary(self);
    }

    fn primary(&mut self) -> (r: Result<Expression, ParseError>)
        ensures
            old(self).read_on(final(self)),
            parsed_as(r, final(self).position()) == parse_primary(
                old(self).tokens_view(),
                old(self).position(),
            ),
            r is Ok ==> old(self).position() < final(self).position(),
            r matches Ok(e) ==> well_formed(e@),
        decreases old(self).tokens_view().len() - old(self).position(), 0nat, 0nat,
    {
        reveal(parse_expression);
        if Self::check(self, TokenType::FALSE) {
            Self::advance(self);
            return Ok(Expression::Literal(Literal::Bool(false)));
        }
        if Self::check(self, TokenType::TRUE) {
            Self::advance(self);
            return Ok(Expression::Literal(Literal::Bool(true)));
        }
        if Self::check(self, TokenType::NIL) {
            Self::advance(self);
            return Ok(Expression::Literal(Literal::Nil));
        }
        if Self::check(self, TokenType::STRING) {
            let lit_string = string_from(&self.tokens[self.curr_idx].literal);
            Self::advance(self);
            return Ok(Expression::Literal(Literal::String(lit_string)));
        }
        if Self::check(self, TokenType::NUMBER) {
            let literal_number = number_from(&self.tokens[self.curr_idx].literal);
            Self::advance(self);
            return Ok(Expression::Literal(Literal::Number(literal_number)));
        }
        if Self::check(self, TokenType::LEFT_PAREN) {
            Self::advance(self);
            let expr = match Self::expression(self) {
                Ok(e) => e,
                Err(error) => {
                    return Err(error);
                },
            };
            match Self::consume(self, TokenType::RIGHT_PAREN, ParseErrorKind::ExpectExpression) {
                Ok(_) => {},
                Err(error) => {
                    return Err(error);
                },
            }
            return Ok(Expression::Grouping { expr: Box::new(expr) });
        }
        if Self::check(self, TokenType::IDENTIFIER) {
            let variable = Expression::Variable { variable: Self::peek(self) };
            Self::advance(self);
            return Ok(variable);
        }
        return Err(ParseError::at(&self.tokens, self.curr_idx, ParseErrorKind::ExpectExpression));
    }

    /// Parses an assignment, or the equality that stands alone.
    pub fn assignment(&mut self) -> (r: Result<Expression, ParseError>)
        ensures
            old(self).read_on(final(self)),
            parsed_as(r, final(self).position()) == parse_assignment(
                old(self).tokens_view(),
                old(self).position(),
            ),
            r is Ok ==> old(self).position() < final(self).position(),
            r matches Ok(e) ==> well_formed(e@),
        decreases old(self).tokens_view().len() - old(self).position(), 5nat, 0nat,
    {
        reveal(parse_expression);
        let expr = match Self::equality(self) {
            Ok(e) => e,
            Err(error) => {
                return Err(error);
            },
        };
        if Self::check(self, TokenType::EQUAL) {
            let equals = self.curr_idx;
            Self::advance(self);
            let value = match Self::expression(self) {
                Ok(e) => e,
                Err(error) => {
                    return Err(error);
                },
            };
            match expr {
                Expression::Variable { variable } => {
                    return Ok(Expression::Assignment { name: variable, value: Box::new(value) });
                },
                _ => {
                    return Err(
                        ParseError::at(
                            &self.tokens,
                            equals,
                            ParseErrorKind::InvalidAssignmentTarget,
                        ),
                    );
                },
            }
        }
        return Ok(expr);
    }

    /// Parses an expression.
    pub fn expression(&mut self) -> (r: Result<Expression, ParseError>)
        ensures
            old(self).read_on(final(self)),
            parsed_as(r, final(self).position()) == parse_expression(
                old(self).tokens_view(),
                old(self).position(),
            ),
            r is Ok ==> old(self).position() < final(self).position(),
            r matches Ok(e) ==> well_formed(e@),
        decreases old(self).tokens_view().len() - old(self).position(), 5nat, 1nat,
    {
        reveal(parse_expression);
        return Self::assignment(self);
    }

    /// Parses expressions up to the end of the input and collects them. The
    /// first error ends the parse; the expressions before it stay collected.
    pub fn parse_tree(&mut self) -> (r: Result<(), ParseError>)
        ensures
            final(self).tokens_view() == old(self).tokens_view(),
            ({
                let all = parse_expressions(old(self).tokens_view(), old(self).position());
                &&& final(self).position() == all.pos
                &&& final(self).parsed() == old(self).parsed() + all.items
                &&& match r {
                    Ok(_) => all.error is None,
                    Err(e) => all.error == Some(e@),
                }
            }),
            forall|i: int|
                old(self).parsed().len() <= i < final(self).parsed().len() ==> well_formed(
                    #[trigger] final(self).parsed()[i],
                ),
    {
        let ghost tokens = self.tokens_view();
        let ghost before = self.parsed();
        let ghost all = parse_expressions(tokens, self.position());
        let ghost mut read: Seq<ExpressionView> = Seq::empty();
        proof {
            use_type_invariant(&*self);
            assert(before + read =~= before);
            assert(read + all.items =~= all.items);
        }
        while !Self::is_at_end(self)
            invariant
                self.tokens_view() == tokens,
                tokens == old(self).tokens_view(),
                before == old(self).parsed(),
                all == parse_expressions(old(self).tokens_view(), old(self).position()),
                0 <= self.position() <= tokens.len(),
                self.parsed() == before + read,
                all.pos == parse_expressions(tokens, self.position()).pos,
                all.items == read + parse_expressions(tokens, self.position()).items,
                all.error == parse_expressions(tokens, self.position()).error,
                forall|i: int| 0 <= i < read.len() ==> well_formed(#[trigger] read[i]),
            decreases tokens.len() - self.position(),
        {
            let ghost at = self.position();
            let ghost here = parse_expressions(tokens, at);
            let ghost first = parse_expression(tokens, at);
            let expr = match Self::expression(self) {
                Ok(e) => e,
                Err(error) => {
                    proof {
                        assert(here.items =~= Seq::<ExpressionView>::empty());
                        assert(read + here.items =~= read);
                        assert forall|i: int|
                            before.len() <= i < self.parsed().len() implies well_formed(
                            #[trigger] self.parsed()[i],
                        ) by {
                            assert(self.parsed()[i] == read[i - before.len()]);
                        }
                    }
                    return Err(error);
                },
            };
            proof {
                let rest = parse_expressions(tokens, self.position());
                assert(first.pos == self.position());
                assert(here == crate::grammar::item_then(expr@, rest));
                assert((read.push(expr@)) + rest.items =~= read + (seq![expr@] + rest.items));
                assert(before + read.push(expr@) =~= (before + read).push(expr@));
                read = read.push(expr@);
            }
            Self::collect(self, expr);
        }
        proof {
            let rest = parse_expressions(tokens, self.position());
            assert(rest.items =~= Seq::<ExpressionView>::empty());
            assert(read + rest.items =~= read);
            assert forall|i: int|
                before.len() <= i < self.parsed().len() implies well_formed(
                #[trigger] self.parsed()[i],
            ) by {
                assert(self.parsed()[i] == read[i - before.len()]);
            }
        }
        return Ok(());
    }

    /// Adds an expression to the collected ones.
    fn collect(&mut self, expr: Expression)
        ensures
            final(self).tokens_view() == old(self).tokens_view(),
            final(self).position() == old(self).position(),
            final(self).parsed() == old(self).parsed().push(expr@),
    {
        proof {
            use_type_invariant(&*self);
        }
        let mut exprs: Vec<Expression> = Vec::new();
        core::mem::swap(&mut self.exprs, &mut exprs);
        exprs.push(expr);
        assert(expression_views(exprs@) =~= old(self).parsed().push(expr@));
        core::mem::swap(&mut self.exprs, &mut exprs);
    }

    /// A copy of the expressions collected so far.
    pub fn export_exprs(&self) -> (exprs: Vec<Expression>)
        ensures
            expression_views(exprs@) == self.parsed(),
    {
        let mut copy: Vec<Expression> = Vec::new();
        let mut i: usize = 0;
        while i < self.exprs.len()
            invariant
                i <= self.exprs.len(),
                copy.len() == i,
                forall|j: int| 0 <= j < i ==> copy@[j]@ == self.exprs@[j]@,
            decreases self.exprs.len() - i,
        {
            copy.push(self.exprs[i].clone());
            i += 1;
        }
        assert(expression_views(copy@) =~= expression_views(self.exprs@));
        return copy;
    }
}

/// The printed form of an expression: operators come first, and every
/// operation stands in parentheses.
///
/// A literal is written as it is displayed and a variable by its name. A
/// unary operation is `(op operand)`, a binary one `(op left right)`, a
/// parenthesized expression `(group inner)`. An assignment is written as the
/// name it assigns to.
pub open spec fn prefix_form(e: ExpressionView) -> Seq<FragmentView>
    decreases e,
{
    match e {
        ExpressionView::Literal(v) => seq![displayed(v)],
        ExpressionView::Unary { operator, expr } => seq![
            FragmentView::Text("("@ + operator.lexeme + " "@),
        ] + prefix_form(*expr) + seq![FragmentView::Text(")"@)],
        ExpressionView::Binary { operator, left_expr, right_expr } => seq![
            FragmentView::Text("("@ + operator.lexeme + " "@),
        ] + prefix_form(*left_expr) + seq![FragmentView::Text(" "@)] + prefix_form(*right_expr)
            + seq![FragmentView::Text(")"@)],
        ExpressionView::Grouping { expr } => seq![FragmentView::Text("(group "@)] + prefix_form(
            *expr,
        ) + seq![FragmentView::Text(")"@)],
        ExpressionView::Variable { variable } => seq![FragmentView::Text(variable.lexeme)],
        ExpressionView::Assignment { name, value } => seq![FragmentView::Text(name.lexeme)],
    }
}

/// Appends a text fragment.
fn write_text(out: &mut Vec<Fragment>, text: String)
    ensures
        fragment_views(final(out)@) == fragment_views(old(out)@).push(FragmentView::Text(text@)),
{
    out.push(Fragment::Text(text));
    assert(fragment_views(out@) =~= fragment_views(old(out)@).push(FragmentView::Text(text@)));
}

/// The text that opens an operation: `(`, the operator, a blank.
fn opening(operator: &Token) -> (text: String)
    ensures
        text@ == "("@ + operator@.lexeme + " "@,
{
    let mut text = String::from_str("(");
    text.append(operator.lexeme.as_str());
    text.append(" ");
    text
}

impl Expression {
    /// Appends the printed form of this expression to `out`.
    pub fn write_to(&self, out: &mut Vec<Fragment>)
        ensures
            fragment_views(final(out)@) == fragment_views(old(out)@) + prefix_form(self@),
        decreases self,
    {
        let ghost before = fragment_views(out@);
        match self {
            Expression::Unary { operator, expr } => {
                write_text(out, opening(operator));
                expr.write_to(out);
                write_text(out, String::from_str(")"));
                assert(fragment_views(out@) =~= before + prefix_form(self@));
            },
            Expression::Binary { operator, left_expr, right_expr } => {
                write_text(out, opening(operator));
                left_expr.write_to(out);
                write_text(out, String::from_str(" "));
                right_expr.write_to(out);
                write_text(out, String::from_str(")"));
                assert(fragment_views(out@) =~= before + prefix_form(self@));
            },
            Expression::Grouping { expr } => {
                write_text(out, String::from_str("(group "));
                expr.write_to(out);
                write_text(out, String::from_str(")"));
                assert(fragment_views(out@) =~= before + prefix_form(self@));
            },
            Expression::Literal(lit) => {
                out.push(lit.display());
                assert(fragment_views(out@) =~= before + prefix_form(self@));
            },
            Expression::Variable { variable } => {
                write_text(out, variable.lexeme.clone());
                assert(fragment_views(out@) =~= before + prefix_form(self@));
            },
            Expression::Assignment { name, value } => {
                write_text(out, name.lexeme.clone());
                assert(fragment_views(out@) =~= before + prefix_form(self@));
            },
        }
    }

    /// The printed form of this expression.
    pub fn to_string(&self) -> (form: Vec<Fragment>)
        ensures
            fragment_views(form@) == prefix_form(self@),
    {
        let mut form: Vec<Fragment> = Vec::new();
        self.write_to(&mut form);
        assert(fragment_views(form@) =~= prefix_form(self@));
        form
    }
}

} // verus!
