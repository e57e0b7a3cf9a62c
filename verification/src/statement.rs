//! Statements: what a statement is, how it is executed and how it is parsed
//! from tokens.

use vstd::prelude::*;
use crate::token::{Token, TokenType, TokenView};
use crate::error::{RuntimeError, RuntimeErrorView, ParseError, ParseErrorKind, ParseErrorView};
use crate::text::{Fragment, FragmentView, fragment_views, end_of_line};
use crate::environment::{
    State, Scopes, defined, entered, exited, assigned, add_block_scoping, remove_block_scoping,
    define_env,
};
use crate::expr::{
    Expression, ExpressionView, Literal, LiteralView, AST, evaluate, well_formed, printed,
    Evaluated,
};
use crate::grammar::{Parsed, check, parse_statement, parse_block_items, parse_program, item_then};

verus! {

/// A statement. A block owns its statements.
#[derive(Debug)]
pub enum Statement {
    PrintStatement(Expression),
    ExprStatement(Expression),
    DeclStatement { name: Token, value: Option<Expression> },
    BlockStatement(Vec<Statement>),
}

/// The mathematical value of a [`Statement`].
pub ghost enum StatementView {
    PrintStatement(ExpressionView),
    ExprStatement(ExpressionView),
    DeclStatement { name: TokenView, value: Option<ExpressionView> },
    BlockStatement(Seq<StatementView>),
}

impl Statement {
    /// The value of this statement, node by node.
    pub open spec fn model(&self) -> StatementView
        decreases self,
    {
        match self {
            Statement::PrintStatement(e) => StatementView::PrintStatement(e@),
            Statement::ExprStatement(e) => StatementView::ExprStatement(e@),
            Statement::DeclStatement { name, value } => StatementView::DeclStatement {
                name: name@,
                value: match value {
                    Some(e) => Some(e@),
                    None => None,
                },
            },
            Statement::BlockStatement(stats) => StatementView::BlockStatement(
                Seq::new(
                    stats@.len(),
                    |i: int|
                        if 0 <= i < stats@.len() {
                            stats@[i].model()
                        } else {
                            StatementView::BlockStatement(Seq::empty())
                        },
                ),
            ),
        }
    }
}

/// A copy of each statement of `stats`, in order.
pub fn clone_statements(stats: &Vec<Statement>) -> (copy: Vec<Statement>)
    ensures
        statement_views(copy@) == statement_views(stats@),
    decreases stats,
{
    let mut copy: Vec<Statement> = Vec::new();
    let mut i: usize = 0;
    while i < stats.len()
        invariant
            i <= stats.len(),
            copy.len() == i,
            forall|j: int| 0 <= j < i ==> copy@[j]@ == stats@[j]@,
        decreases stats.len() - i,
    {
        copy.push(stats[i].clone());
        i += 1;
    }
    assert(statement_views(copy@) =~= statement_views(stats@));
    copy
}

impl Clone for Statement {
    fn clone(&self) -> (r: Statement)
        ensures
            r@ == self@,
        decreases self,
    {
        match self {
            Statement::PrintStatement(e) => Statement::PrintStatement(e.clone()),
            Statement::ExprStatement(e) => Statement::ExprStatement(e.clone()),
            Statement::DeclStatement { name, value } => Statement::DeclStatement {
                name: name.clone(),
                value: match value {
                    Some(e) => Some(e.clone()),
                    None => None,
                },
            },
            Statement::BlockStatement(stats) => {
                let copy = clone_statements(stats);
                proof {
                    lemma_block_view(*stats);
                    lemma_block_view(copy);
                }
                Statement::BlockStatement(copy)
            },
        }
    }
}

impl View for Statement {
    type V = StatementView;

    open spec fn view(&self) -> StatementView {
        self.model()
    }
}

/// The values of a sequence of statements, in order.
pub open spec fn statement_views(stats: Seq<Statement>) -> Seq<StatementView> {
    stats.map_values(|s: Statement| s@)
}

/// The views of a sequence with one more statement.
pub proof fn lemma_push_view(stats: Seq<Statement>, s: Statement)
    ensures
        statement_views(stats.push(s)) == statement_views(stats).push(s@),
{
    assert(statement_views(stats.push(s)) =~= statement_views(stats).push(s@));
}

/// The view of a block is the views of its statements.
pub proof fn lemma_block_view(stats: Vec<Statement>)
    ensures
        Statement::BlockStatement(stats)@ == StatementView::BlockStatement(
            statement_views(stats@),
        ),
{
    let block = Statement::BlockStatement(stats);
    assert(block@->BlockStatement_0 =~= statement_views(stats@));
}

/// Whether every expression in the statement is well formed.
pub open spec fn statement_well_formed(s: StatementView) -> bool
    decreases s,
{
    match s {
        StatementView::PrintStatement(e) => well_formed(e),
        StatementView::ExprStatement(e) => well_formed(e),
        StatementView::DeclStatement { name, value } => match value {
            Some(e) => well_formed(e),
            None => true,
        },
        StatementView::BlockStatement(list) => forall|i: int|
            0 <= i < list.len() ==> statement_well_formed(#[trigger] list[i]),
    }
}

/// Whether every statement of the sequence is well formed.
pub open spec fn all_well_formed(list: Seq<StatementView>) -> bool {
    forall|i: int| 0 <= i < list.len() ==> statement_well_formed(#[trigger] list[i])
}

/// A block is well formed exactly if each of its statements is.
pub proof fn lemma_block_well_formed(list: Seq<StatementView>)
    ensures
        statement_well_formed(StatementView::BlockStatement(list)) == all_well_formed(list),
{
    let block = StatementView::BlockStatement(list);
    assert(block->BlockStatement_0 == list);
}

/// What a run leaves behind: the environment, what it printed, and the
/// error that ended it, if one did.
pub ghost struct Ran {
    pub env: Scopes,
    pub output: Seq<FragmentView>,
    pub error: Option<RuntimeErrorView>,
}

/// What is left after an expression was evaluated for a statement that
/// prints nothing.
pub open spec fn silent(evaluated: Evaluated) -> Ran {
    Ran {
        env: evaluated.env,
        output: Seq::empty(),
        error: match evaluated.result {
            Ok(_) => None,
            Err(e) => Some(e),
        },
    }
}

/// The execution of a statement in an environment.
///
/// `print` writes the value of its expression and ends the line. A declaration
/// binds its name in the innermost scope to the value of its initializer, or
/// to `nil` if it has none. A block runs its statements in a new innermost
/// scope, which is left again however the block ends.
pub open spec fn execute(s: StatementView, env: Scopes) -> Ran
    decreases s, 0nat,
{
    match s {
        StatementView::PrintStatement(e) => {
            let evaluated = evaluate(e, env);
            match evaluated.result {
                Ok(v) => Ran {
                    env: evaluated.env,
                    output: seq![printed(v), end_of_line()],
                    error: None,
                },
                Err(_) => silent(evaluated),
            }
        },
        StatementView::ExprStatement(e) => silent(evaluate(e, env)),
        StatementView::DeclStatement { name, value } => match value {
            Some(e) => {
                let evaluated = evaluate(e, env);
                match evaluated.result {
                    Ok(v) => Ran {
                        env: defined(evaluated.env, name.lexeme, v),
                        output: Seq::empty(),
                        error: None,
                    },
                    Err(_) => silent(evaluated),
                }
            },
            None => Ran {
                env: defined(env, name.lexeme, LiteralView::Nil),
                output: Seq::empty(),
                error: None,
            },
        },
        StatementView::BlockStatement(list) => {
            let inner = execute_from(list, 0, entered(env));
            Ran { env: exited(inner.env), output: inner.output, error: inner.error }
        },
    }
}

/// The execution of the statements `list[i..]`, one after the other. The
/// first error ends it.
pub open spec fn execute_from(list: Seq<StatementView>, i: int, env: Scopes) -> Ran
    decreases list, list.len() - i,
{
    if 0 <= i < list.len() {
        let first = execute(list[i], env);
        if first.error is Some {
            first
        } else {
            let rest = execute_from(list, i + 1, first.env);
            Ran { env: rest.env, output: first.output + rest.output, error: rest.error }
        }
    } else {
        Ran { env, output: Seq::empty(), error: None }
    }
}

/// The execution of a whole program.
pub open spec fn execute_all(list: Seq<StatementView>, env: Scopes) -> Ran {
    execute_from(list, 0, env)
}

/// Assigning changes no scope count.
pub proof fn lemma_assigned_keeps_depth(env: Scopes, name: Seq<char>, value: LiteralView)
    ensures
        assigned(env, name, value) matches Some(after) ==> after.len() == env.len(),
    decreases env.len(),
{
    if env.len() > 0 && !env[0].dom().contains(name) {
        lemma_assigned_keeps_depth(env.drop_first(), name, value);
    }
}

/// Evaluating an expression opens and closes no scope.
pub proof fn lemma_evaluate_keeps_depth(e: ExpressionView, env: Scopes)
    ensures
        evaluate(e, env).env.len() == env.len(),
    decreases e,
{
    match e {
        ExpressionView::Literal(_) => {},
        ExpressionView::Grouping { expr } => {
            lemma_evaluate_keeps_depth(*expr, env);
        },
        ExpressionView::Variable { variable } => {},
        ExpressionView::Assignment { name, value } => {
            lemma_evaluate_keeps_depth(*value, env);
            let right = evaluate(*value, env);
            match right.result {
                Ok(v) => {
                    lemma_assigned_keeps_depth(right.env, name.lexeme, v);
                },
                Err(_) => {},
            }
        },
        ExpressionView::Unary { operator, expr } => {
            lemma_evaluate_keeps_depth(*expr, env);
        },
        ExpressionView::Binary { operator, left_expr, right_expr } => {
            lemma_evaluate_keeps_depth(*left_expr, env);
            lemma_evaluate_keeps_depth(*right_expr, evaluate(*left_expr, env).env);
        },
    }
}

/// Every scope that a statement enters it leaves again, whether it ends
/// with an error or without one.
pub proof fn lemma_execute_keeps_depth(s: StatementView, env: Scopes)
    requires
        env.len() >= 1,
    ensures
        execute(s, env).env.len() == env.len(),
    decreases s, 0nat,
{
    match s {
        StatementView::PrintStatement(e) => {
            lemma_evaluate_keeps_depth(e, env);
        },
        StatementView::ExprStatement(e) => {
            lemma_evaluate_keeps_depth(e, env);
        },
        StatementView::DeclStatement { name, value } => {
            match value {
                Some(e) => {
                    lemma_evaluate_keeps_depth(e, env);
                },
                None => {},
            }
        },
        StatementView::BlockStatement(list) => {
            lemma_execute_from_keeps_depth(list, 0, entered(env));
        },
    }
}

/// Every scope that a sequence of statements enters it leaves again.
pub proof fn lemma_execute_from_keeps_depth(list: Seq<StatementView>, i: int, env: Scopes)
    requires
        env.len() >= 1,
    ensures
        execute_from(list, i, env).env.len() == env.len(),
    decreases list, list.len() - i,
{
    if 0 <= i < list.len() {
        lemma_execute_keeps_depth(list[i], env);
        let first = execute(list[i], env);
        if first.error is None {
            lemma_execute_from_keeps_depth(list, i + 1, first.env);
        }
    }
}

/// Whether a run that returned `r`, left the environment `env` and wrote
/// `written` was the run `ran`.
pub open spec fn ran_as(
    r: Result<(), RuntimeError>,
    env: Scopes,
    written: Seq<FragmentView>,
    ran: Ran,
) -> bool {
    &&& env == ran.env
    &&& written == ran.output
    &&& match r {
        Ok(_) => ran.error is None,
        Err(e) => ran.error == Some(e@),
    }
}

/// What was appended to `before` to give `after`.
pub open spec fn appended(before: Seq<Fragment>, after: Seq<Fragment>) -> Seq<FragmentView> {
    fragment_views(after).subrange(before.len() as int, after.len() as int)
}

/// Whether `after` is `before` with something appended.
pub open spec fn extends(before: Seq<Fragment>, after: Seq<Fragment>) -> bool {
    &&& before.len() <= after.len()
    &&& fragment_views(after).subrange(0, before.len() as int) == fragment_views(before)
}

/// Evaluates the expression and appends a line with its value to `out`.
pub fn eval_print_stat(expr: &Expression, env: &mut State, out: &mut Vec<Fragment>) -> (r: Result<
    (),
    RuntimeError,
>)
    requires
        well_formed(expr@),
    ensures
        extends(old(out)@, final(out)@),
        ran_as(
            r,
            final(env)@,
            appended(old(out)@, final(out)@),
            execute(StatementView::PrintStatement(expr@), old(env)@),
        ),
{
    match expr.accept(env) {
        Ok(lit) => {
            out.push(lit.print());
            out.push(Fragment::newline());
            proof {
                assert(fragment_views(out@).subrange(0, old(out)@.len() as int)
                    =~= fragment_views(old(out)@));
                assert(appended(old(out)@, out@) =~= seq![printed(lit@), end_of_line()]);
            }
            Ok(())
        },
        Err(e) => {
            proof {
                assert(fragment_views(out@).subrange(0, old(out)@.len() as int)
                    =~= fragment_views(old(out)@));
                assert(appended(old(out)@, out@) =~= Seq::<FragmentView>::empty());
            }
            Err(e)
        },
    }
}

/// Binds `name` in the innermost scope to the value of the initializer, or
/// to `nil` where there is none.
pub fn eval_decl_stat(name: String, value: &Option<Expression>, env: &mut State) -> (r: Result<
    (),
    RuntimeError,
>)
    requires
        value matches Some(e) ==> well_formed(e@),
    ensures
        match *value {
            Some(e) => {
                let evaluated = evaluate(e@, old(env)@);
                match evaluated.result {
                    Ok(v) => r is Ok && final(env)@ == defined(evaluated.env, name@, v),
                    Err(error) => final(env)@ == evaluated.env && (r matches Err(x) && x@
                        == error),
                }
            },
            None => r is Ok && final(env)@ == defined(old(env)@, name@, LiteralView::Nil),
        },
{
    let val = match value {
        Some(e) => match e.accept(env) {
            Ok(v) => v,
            Err(error) => {
                return Err(error);
            },
        },
        None => Literal::Nil,
    };
    define_env(env, name, val);
    Ok(())
}

/// Evaluates the expression for its effects.
pub fn eval_expr_stat(expr: &Expression, env: &mut State) -> (r: Result<(), RuntimeError>)
    requires
        well_formed(expr@),
    ensures
        final(env)@ == evaluate(expr@, old(env)@).env,
        match r {
            Ok(_) => evaluate(expr@, old(env)@).result is Ok,
            Err(e) => evaluate(expr@, old(env)@).result == Err::<LiteralView, RuntimeErrorView>(
                e@,
            ),
        },
{
    match expr.accept(env) {
        Ok(_) => Ok(()),
        Err(e) => Err(e),
    }
}

/// Runs the statements one after the other in `env`, up to the first error.
pub fn run_statements(stats: &Vec<Statement>, env: &mut State, out: &mut Vec<Fragment>) -> (r:
    Result<(), RuntimeError>)
    requires
        all_well_formed(statement_views(stats@)),
    ensures
        extends(old(out)@, final(out)@),
        ran_as(
            r,
            final(env)@,
            appended(old(out)@, final(out)@),
            execute_all(statement_views(stats@), old(env)@),
        ),
    decreases stats, 0nat,
{
    let ghost list = statement_views(stats@);
    let ghost whole = execute_from(list, 0, env@);
    let mut i: usize = 0;
    proof {
        assert(appended(old(out)@, out@) =~= Seq::<FragmentView>::empty());
        assert(appended(old(out)@, out@) + whole.output =~= whole.output);
        assert(fragment_views(out@).subrange(0, old(out)@.len() as int) =~= fragment_views(
            old(out)@,
        ));
    }
    while i < stats.len()
        invariant
            i <= stats.len(),
            list == statement_views(stats@),
            all_well_formed(list),
            extends(old(out)@, out@),
            whole.env == execute_from(list, i as int, env@).env,
            whole.error == execute_from(list, i as int, env@).error,
            whole.output == appended(old(out)@, out@) + execute_from(list, i as int, env@).output,
            whole == execute_all(statement_views(stats@), old(env)@),
        decreases stats.len() - i,
    {
        let ghost env_before = env@;
        let ghost out_before = out@;
        let ghost first = execute(list[i as int], env_before);
        assert(list[i as int] == stats@[i as int]@);
        assert(statement_well_formed(list[i as int]));
        match stats[i].accept(env, out) {
            Ok(_) => {},
            Err(e) => {
                proof {
                    assert(appended(old(out)@, out@) =~= appended(old(out)@, out_before)
                        + appended(out_before, out@));
                    assert(fragment_views(out@).subrange(0, old(out)@.len() as int)
                        =~= fragment_views(out_before).subrange(0, old(out)@.len() as int));
                }
                return Err(e);
            },
        }
        proof {
            let rest = execute_from(list, i + 1, env@);
            assert(appended(old(out)@, out@) =~= appended(old(out)@, out_before) + appended(
                out_before,
                out@,
            ));
            assert(fragment_views(out@).subrange(0, old(out)@.len() as int) =~= fragment_views(
                out_before,
            ).subrange(0, old(out)@.len() as int));
            assert((appended(old(out)@, out_before) + first.output) + rest.output =~= appended(
                old(out)@,
                out_before,
            ) + (first.output + rest.output));
        }
        i += 1;
    }
    proof {
        assert(appended(old(out)@, out@) + Seq::<FragmentView>::empty() =~= appended(
            old(out)@,
            out@,
        ));
    }
    Ok(())
}

/// Runs the statements of a block in a new innermost scope, and leaves the
/// scope again, whether they ended with an error or without one.
pub fn eval_block_stat(stats: &Vec<Statement>, env: &mut State, out: &mut Vec<Fragment>) -> (r:
    Result<(), RuntimeError>)
    requires
        all_well_formed(statement_views(stats@)),
    ensures
        extends(old(out)@, final(out)@),
        ran_as(
            r,
            final(env)@,
            appended(old(out)@, final(out)@),
            execute(StatementView::BlockStatement(statement_views(stats@)), old(env)@),
        ),
    decreases stats, 1nat,
{
    proof {
        env.lemma_has_scope();
    }
    add_block_scoping(env);
    let ghost inside = env@;
    let r = run_statements(stats, env, out);
    proof {
        lemma_execute_from_keeps_depth(statement_views(stats@), 0, inside);
    }
    match remove_block_scoping(env) {
        Ok(_) => r,
        Err(e) => Err(e),
    }
}

/// Whether every expression in the statements `stats` is well formed.
pub fn are_well_formed(stats: &Vec<Statement>) -> (r: bool)
    ensures
        r == all_well_formed(statement_views(stats@)),
    decreases stats,
{
    let mut i: usize = 0;
    while i < stats.len()
        invariant
            i <= stats.len(),
            forall|j: int| 0 <= j < i ==> statement_well_formed(#[trigger] stats@[j]@),
        decreases stats.len() - i,
    {
        if !stats[i].is_well_formed() {
            assert(!statement_well_formed(statement_views(stats@)[i as int]));
            return false;
        }
        i += 1;
    }
    assert forall|j: int| 0 <= j < statement_views(stats@).len() implies statement_well_formed(
        #[trigger] statement_views(stats@)[j],
    ) by {
        assert(statement_views(stats@)[j] == stats@[j]@);
    }
    true
}

impl Statement {
    /// Whether every expression in this statement is well formed.
    pub fn is_well_formed(&self) -> (r: bool)
        ensures
            r == statement_well_formed(self@),
        decreases self,
    {
        match self {
            Statement::PrintStatement(e) => e.is_well_formed(),
            Statement::ExprStatement(e) => e.is_well_formed(),
            Statement::DeclStatement { name, value } => match value {
                Some(e) => e.is_well_formed(),
                None => true,
            },
            Statement::BlockStatement(stats) => {
                let r = are_well_formed(stats);
                proof {
                    lemma_block_view(*stats);
                    lemma_block_well_formed(statement_views(stats@));
                }
                r
            },
        }
    }

    /// Executes this statement in `env`, appending what it prints to `out`.
    pub fn accept(&self, env: &mut State, out: &mut Vec<Fragment>) -> (r: Result<
        (),
        RuntimeError,
    >)
        requires
            statement_well_formed(self@),
        ensures
            extends(old(out)@, final(out)@),
            ran_as(
                r,
                final(env)@,
                appended(old(out)@, final(out)@),
                execute(self@, old(env)@),
            ),
        decreases self, 0nat,
    {
        match self {
            Statement::PrintStatement(expr) => eval_print_stat(expr, env, out),
            Statement::DeclStatement { name, value } => {
                let r = eval_decl_stat(name.lexeme.clone(), value, env);
                proof {
                    assert(fragment_views(out@).subrange(0, old(out)@.len() as int)
                        =~= fragment_views(old(out)@));
                    assert(appended(old(out)@, out@) =~= Seq::<FragmentView>::empty());
                }
                r
            },
            Statement::ExprStatement(expr) => {
                let r = eval_expr_stat(expr, env);
                proof {
                    assert(fragment_views(out@).subrange(0, old(out)@.len() as int)
                        =~= fragment_views(old(out)@));
                    assert(appended(old(out)@, out@) =~= Seq::<FragmentView>::empty());
                }
                r
            },
            Statement::BlockStatement(stats) => {
                proof {
                    lemma_block_view(*stats);
                    lemma_block_well_formed(statement_views(stats@));
                }
                eval_block_stat(stats, env, out)
            },
        }
    }
}

/// What a statement-parsing method returned and where it left the parser,
/// as the grammar states it.
pub open spec fn statement_parsed_as(r: Result<Statement, ParseError>, pos: int) -> Parsed<
    StatementView,
> {
    Parsed {
        pos,
        result: match r {
            Ok(s) => Ok(s@),
            Err(error) => Err(error@),
        },
    }
}

/// The statements `read`, then what `rest` holds.
pub open spec fn items_then(read: Seq<StatementView>, rest: Parsed<Seq<StatementView>>) -> Parsed<
    Seq<StatementView>,
> {
    Parsed {
        pos: rest.pos,
        result: match rest.result {
            Ok(list) => Ok(read + list),
            Err(error) => Err(error),
        },
    }
}

/// The parser of statements: a parser of expressions, and the statements
/// parsed so far.
pub struct SST {
    ast: AST,
    stats: Vec<Statement>,
}

impl SST {
    /// The tokens that are parsed.
    pub closed spec fn tokens_view(&self) -> Seq<TokenView> {
        self.ast.tokens_view()
    }

    /// The position of the next token.
    pub closed spec fn position(&self) -> int {
        self.ast.position()
    }

    /// The statements collected so far.
    pub closed spec fn program(&self) -> Seq<StatementView> {
        statement_views(self.stats@)
    }

    /// Whether `later` is this parser after it read on: the same tokens and
    /// collected statements, at a position that is not before this one.
    pub open spec fn read_on(&self, later: &SST) -> bool {
        &&& later.tokens_view() == self.tokens_view()
        &&& later.program() == self.program()
        &&& self.position() <= later.position() <= self.tokens_view().len()
    }

    /// A parser of statements that goes on where `a` stands.
    pub fn new(a: AST) -> (sst: SST)
        ensures
            sst.tokens_view() == a.tokens_view(),
            sst.position() == a.position(),
            sst.program() == Seq::<StatementView>::empty(),
    {
        let sst = SST { ast: a, stats: Vec::new() };
        assert(sst.program() =~= Seq::<StatementView>::empty());
        sst
    }

    /// Parses what follows `print`.
    fn print_stat(&mut self) -> (r: Result<Statement, ParseError>)
        requires
            check(old(self).tokens_view(), old(self).position(), TokenType::PRINT),
        ensures
            old(self).read_on(final(self)),
            statement_parsed_as(r, final(self).position()) == parse_statement(
                old(self).tokens_view(),
                old(self).position(),
            ),
            r is Ok ==> old(self).position() < final(self).position(),
            r matches Ok(s) ==> statement_well_formed(s@),
    {
        self.ast.advance();
        let expr = match self.ast.expression() {
            Ok(e) => e,
            Err(error) => {
                return Err(error);
            },
        };
        match self.ast.consume(TokenType::SEMICOLON, ParseErrorKind::ExpectSemicolon) {
            Ok(_) => {},
            Err(error) => {
                return Err(error);
            },
        }
        return Ok(Statement::PrintStatement(expr));
    }

    /// Parses what follows `var`.
    fn declare_stat(&mut self) -> (r: Result<Statement, ParseError>)
        requires
            check(old(self).tokens_view(), old(self).position(), TokenType::VAR),
        ensures
            old(self).read_on(final(self)),
            statement_parsed_as(r, final(self).position()) == parse_statement(
                old(self).tokens_view(),
                old(self).position(),
            ),
            r is Ok ==> old(self).position() < final(self).position(),
            r matches Ok(s) ==> statement_well_formed(s@),
    {
        self.ast.advance();
        let name = match self.ast.consume(
            TokenType::IDENTIFIER,
            ParseErrorKind::ExpectVariableName,
        ) {
            Ok(token) => token,
            Err(error) => {
                return Err(error);
            },
        };
        let mut value: Option<Expression> = None;
        if self.ast.check(TokenType::EQUAL) {
            self.ast.advance();
            value =
            match self.ast.expression() {
                Ok(e) => Some(e),
                Err(error) => {
                    return Err(error);
                },
            };
        }
        match self.ast.consume(TokenType::SEMICOLON, ParseErrorKind::ExpectSemicolon) {
            Ok(_) => {},
            Err(error) => {
                return Err(error);
            },
        }
        return Ok(Statement::DeclStatement { name, value });
    }

    /// Parses what follows `{`.
    fn block_stat(&mut self) -> (r: Result<Statement, ParseError>)
        requires
            check(old(self).tokens_view(), old(self).position(), TokenType::LEFT_BRACE),
        ensures
            old(self).read_on(final(self)),
            statement_parsed_as(r, final(self).position()) == parse_statement(
                old(self).tokens_view(),
                old(self).position(),
            ),
            r is Ok ==> old(self).position() < final(self).position(),
            r matches Ok(s) ==> statement_well_formed(s@),
        decreases old(self).tokens_view().len() - old(self).position(), 0nat,
    {
        let ghost tokens = self.tokens_view();
        let ghost start = self.position();
        let ghost all = parse_block_items(tokens, start + 1);
        let ghost mut read: Seq<StatementView> = Seq::empty();
        self.ast.advance();
        let mut stats: Vec<Statement> = Vec::new();
        proof {
            assert(statement_views(stats@) =~= read);
            assert(items_then(read, all) == all) by {
                match all.result {
                    Ok(list) => {
                        assert(read + list =~= list);
                    },
                    Err(_) => {},
                }
            }
        }
        while !self.ast.is_at_end() && !self.ast.check(TokenType::RIGHT_BRACE)
            invariant
                old(self).read_on(self),
                tokens == old(self).tokens_view(),
                start == old(self).position(),
                start < self.position(),
                all == parse_block_items(tokens, start + 1),
                check(tokens, start, TokenType::LEFT_BRACE),
                statement_views(stats@) == read,
                all_well_formed(read),
                items_then(read, parse_block_items(tokens, self.position())) == all,
            decreases tokens.len() - self.position(),
        {
            let ghost at = self.position();
            let ghost here = parse_block_items(tokens, at);
            let ghost first = parse_statement(tokens, at);
            let stat = match Self::statement(self) {
                Ok(s) => s,
                Err(error) => {
                    proof {
                        assert(here.result == Err::<Seq<StatementView>, ParseErrorView>(error@));
                        assert(here.pos == self.position());
                    }
                    return Err(error);
                },
            };
            proof {
                let rest = parse_block_items(tokens, self.position());
                assert(first.pos == self.position());
                assert(here == (match rest.result {
                    Ok(list) => crate::grammar::accepted(rest.pos, seq![stat@] + list),
                    Err(_) => rest,
                }));
                lemma_push_view(stats@, stat);
                assert(all_well_formed(read.push(stat@))) by {
                    assert forall|i: int| 0 <= i < read.push(stat@).len() implies
                        statement_well_formed(#[trigger] read.push(stat@)[i]) by {
                        if i < read.len() {
                            assert(read.push(stat@)[i] == read[i]);
                        }
                    }
                }
                assert(items_then(read.push(stat@), rest) == items_then(read, here)) by {
                    match rest.result {
                        Ok(list) => {
                            assert(read.push(stat@) + list =~= read + (seq![stat@] + list));
                        },
                        Err(_) => {},
                    }
                }
                read = read.push(stat@);
            }
            stats.push(stat);
        }
        proof {
            let rest = parse_block_items(tokens, self.position());
            assert(rest == crate::grammar::accepted(self.position(), Seq::<StatementView>::empty()));
            assert(read + Seq::<StatementView>::empty() =~= read);
            assert(all.result == Ok::<Seq<StatementView>, ParseErrorView>(read));
            assert(all.pos == self.position());
        }
        match self.ast.consume(TokenType::RIGHT_BRACE, ParseErrorKind::ExpectRightBrace) {
            Ok(_) => {},
            Err(error) => {
                return Err(error);
            },
        }
        proof {
            lemma_block_view(stats);
            lemma_block_well_formed(statement_views(stats@));
        }
        return Ok(Statement::BlockStatement(stats));
    }

    /// Parses one statement.
    fn statement(&mut self) -> (r: Result<Statement, ParseError>)
        ensures
            old(self).read_on(final(self)),
            statement_parsed_as(r, final(self).position()) == parse_statement(
                old(self).tokens_view(),
                old(self).position(),
            ),
            r is Ok ==> old(self).position() < final(self).position(),
            r matches Ok(s) ==> statement_well_formed(s@),
        decreases old(self).tokens_view().len() - old(self).position(), 1nat,
    {
        if self.ast.check(TokenType::PRINT) {
            return Self::print_stat(self);
        }
        if self.ast.check(TokenType::VAR) {
            return Self::declare_stat(self);
        }
        if self.ast.check(TokenType::LEFT_BRACE) {
            return Self::block_stat(self);
        }
        let expr = match self.ast.expression() {
            Ok(e) => e,
            Err(error) => {
                return Err(error);
            },
        };
        match self.ast.consume(TokenType::SEMICOLON, ParseErrorKind::ExpectSemicolon) {
            Ok(_) => {},
            Err(error) => {
                return Err(error);
            },
        }
        return Ok(Statement::ExprStatement(expr));
    }

    /// Parses statements up to the end of the input and collects them. The
    /// first error ends the parse; the statements before it stay collected.
    pub fn parse_tree(&mut self) -> (r: Result<(), ParseError>)
        requires
            all_well_formed(old(self).program()),
        ensures
            final(self).tokens_view() == old(self).tokens_view(),
            all_well_formed(final(self).program()),
            ({
                let all = parse_program(old(self).tokens_view(), old(self).position());
                &&& final(self).position() == all.pos
                &&& final(self).program() == old(self).program() + all.items
                &&& match r {
                    Ok(_) => all.error is None,
                    Err(e) => all.error == Some(e@),
                }
            }),
    {
        let ghost tokens = self.tokens_view();
        let ghost before = self.program();
        let ghost all = parse_program(tokens, self.position());
        let ghost mut read: Seq<StatementView> = Seq::empty();
        proof {
            assert(before + read =~= before);
            assert(read + all.items =~= all.items);
        }
        while !self.ast.is_at_end()
            invariant
                self.tokens_view() == tokens,
                tokens == old(self).tokens_view(),
                before == old(self).program(),
                all == parse_program(old(self).tokens_view(), old(self).position()),
                self.program() == before + read,
                all_well_formed(self.program()),
                all.pos == parse_program(tokens, self.position()).pos,
                all.items == read + parse_program(tokens, self.position()).items,
                all.error == parse_program(tokens, self.position()).error,
            decreases tokens.len() - self.position(),
        {
            let ghost here = parse_program(tokens, self.position());
            let stat = match Self::statement(self) {
                Ok(s) => s,
                Err(error) => {
                    proof {
                        assert(here.items =~= Seq::<StatementView>::empty());
                        assert(read + here.items =~= read);
                    }
                    return Err(error);
                },
            };
            proof {
                let rest = parse_program(tokens, self.position());
                assert(here == item_then(stat@, rest));
                assert((read.push(stat@)) + rest.items =~= read + (seq![stat@] + rest.items));
                assert(before + read.push(stat@) =~= (before + read).push(stat@));
                lemma_push_view(self.stats@, stat);
                assert(all_well_formed((before + read).push(stat@))) by {
                    assert forall|i: int| 0 <= i < (before + read).push(stat@).len() implies
                        statement_well_formed(#[trigger] (before + read).push(stat@)[i]) by {
                        if i < (before + read).len() {
                            assert((before + read).push(stat@)[i] == (before + read)[i]);
                        }
                    }
                }
                read = read.push(stat@);
            }
            self.stats.push(stat);
        }
        proof {
            let rest = parse_program(tokens, self.position());
            assert(rest.items =~= Seq::<StatementView>::empty());
            assert(read + rest.items =~= read);
        }
        return Ok(());
    }

    /// A copy of the statements collected so far.
    pub fn export_stats(&self) -> (stats: Vec<Statement>)
        ensures
            statement_views(stats@) == self.program(),
    {
        clone_statements(&self.stats)
    }

    /// Runs the collected statements in `env`, appending what they print to
    /// `out`. The first error ends the run.
    pub fn run(&self, env: &mut State, out: &mut Vec<Fragment>) -> (r: Result<(), RuntimeError>)
        requires
            all_well_formed(self.program()),
        ensures
            extends(old(out)@, final(out)@),
            ran_as(
                r,
                final(env)@,
                appended(old(out)@, final(out)@),
                execute_all(self.program(), old(env)@),
            ),
    {
        run_statements(&self.stats, env, out)
    }
}

} // verus!
