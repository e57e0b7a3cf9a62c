//! The four stages of the interpreter. Each takes a source text and returns
//! what is to be written to the two output streams, and the exit code.

use vstd::prelude::*;
use crate::token::{Token, token_views};
use crate::tokenizer::{
    Tokenizer, LexError, lex_message, token_lines, scanned_tokens, scanned_errors, scan_status,
    same_text,
};
use crate::error::{ParseError, ParseErrorView, RuntimeError, parse_message, runtime_message};
use crate::text::{Fragment, FragmentView, fragment_views};
use crate::grammar::{parse_expressions, parse_program};
use crate::expr::{AST, ExpressionView, prefix_form, well_formed, expression_views};
use crate::statement::{
    SST, Statement, StatementView, Ran, execute_all, run_statements, statement_views,
    all_well_formed, appended, lemma_push_view,
};
use crate::environment::{State, Scopes};
use crate::expr::LiteralView;

verus! {

/// What a stage leaves to be written, and the exit code.
#[derive(Debug)]
pub struct Report {
    /// What goes to the standard output, in order.
    pub stdout: Vec<Fragment>,
    /// The lines that go to the standard error, in order.
    pub stderr: Vec<String>,
    pub exit_code: i32,
}

/// The mathematical value of a [`Report`].
pub ghost struct ReportView {
    pub stdout: Seq<FragmentView>,
    pub stderr: Seq<Seq<char>>,
    pub exit_code: i32,
}

/// The texts of a sequence of strings, in order.
pub open spec fn texts(lines: Seq<String>) -> Seq<Seq<char>> {
    lines.map_values(|s: String| s@)
}

impl View for Report {
    type V = ReportView;

    open spec fn view(&self) -> ReportView {
        ReportView {
            stdout: fragment_views(self.stdout@),
            stderr: texts(self.stderr@),
            exit_code: self.exit_code,
        }
    }
}

/// The lines that report a sequence of lexical errors.
pub open spec fn lex_messages(errors: Seq<LexError>) -> Seq<Seq<char>> {
    errors.map_values(|e: LexError| lex_message(e))
}

/// The report of a stage that stopped because the source holds lexical
/// errors: the errors, and exit code 65.
pub open spec fn lexical_failure(source: Seq<char>) -> ReportView {
    ReportView {
        stdout: Seq::empty(),
        stderr: lex_messages(scanned_errors(source)),
        exit_code: 65,
    }
}

/// The report of a stage that stopped at a syntax error: the error, and
/// exit code 65.
pub open spec fn syntax_failure(error: ParseErrorView) -> ReportView {
    ReportView { stdout: Seq::empty(), stderr: seq![parse_message(error)], exit_code: 65 }
}

/// The report of a run: what it printed, and the error that ended it with
/// exit code 70, if one did.
pub open spec fn run_outcome(ran: Ran) -> ReportView {
    ReportView {
        stdout: ran.output,
        stderr: match ran.error {
            Some(e) => seq![runtime_message(e)],
            None => Seq::empty(),
        },
        exit_code: if ran.error is Some {
            70
        } else {
            0
        },
    }
}

/// The environment in which a program starts: one empty global scope.
pub open spec fn global_scope() -> Scopes {
    seq![Map::<Seq<char>, LiteralView>::empty()]
}

/// The printed forms of a sequence of expressions, one behind the other
/// with nothing between them.
pub open spec fn prefix_forms(exprs: Seq<ExpressionView>) -> Seq<FragmentView>
    decreases exprs.len(),
{
    if exprs.len() == 0 {
        Seq::empty()
    } else {
        prefix_forms(exprs.drop_last()) + prefix_form(exprs.last())
    }
}

/// The statements that print the values of a sequence of expressions.
pub open spec fn print_each(exprs: Seq<ExpressionView>) -> Seq<StatementView> {
    exprs.map_values(|e: ExpressionView| StatementView::PrintStatement(e))
}

/// `tokenize`: the listing of the tokens, the lexical errors, and exit code
/// 65 if there was an error, 0 if there was none.
pub open spec fn tokenize_report(source: Seq<char>) -> ReportView {
    ReportView {
        stdout: token_lines(scanned_tokens(source)),
        stderr: lex_messages(scanned_errors(source)),
        exit_code: scan_status(scanned_errors(source)),
    }
}

/// `parse`: the printed form of each expression of the source, one behind
/// the other, unless a lexical or a syntax error stops the stage.
pub open spec fn parse_report(source: Seq<char>) -> ReportView {
    if scanned_errors(source).len() > 0 {
        lexical_failure(source)
    } else {
        let parsed = parse_expressions(scanned_tokens(source), 0);
        match parsed.error {
            Some(error) => syntax_failure(error),
            None => ReportView {
                stdout: prefix_forms(parsed.items),
                stderr: Seq::empty(),
                exit_code: 0,
            },
        }
    }
}

/// `evaluate`: the value of each expression of the source, one on each
/// line, unless a lexical or a syntax error stops the stage; a runtime error
/// ends it.
pub open spec fn evaluate_report(source: Seq<char>) -> ReportView {
    if scanned_errors(source).len() > 0 {
        lexical_failure(source)
    } else {
        let parsed = parse_expressions(scanned_tokens(source), 0);
        match parsed.error {
            Some(error) => syntax_failure(error),
            None => run_outcome(execute_all(print_each(parsed.items), global_scope())),
        }
    }
}

/// `run`: what the program of the source prints, unless a lexical or a
/// syntax error stops the stage; a runtime error ends it.
pub open spec fn run_report(source: Seq<char>) -> ReportView {
    if scanned_errors(source).len() > 0 {
        lexical_failure(source)
    } else {
        let parsed = parse_program(scanned_tokens(source), 0);
        match parsed.error {
            Some(error) => syntax_failure(error),
            None => run_outcome(execute_all(parsed.items, global_scope())),
        }
    }
}

/// The stages.
#[derive(Debug, PartialEq, Eq, Clone, Copy, Structural)]
pub enum Command {
    Tokenize,
    Parse,
    Evaluate,
    Run,
}

/// The stage that a command word selects.
pub open spec fn command_named(word: Seq<char>) -> Option<Command> {
    if word == "tokenize"@ {
        Some(Command::Tokenize)
    } else if word == "parse"@ {
        Some(Command::Parse)
    } else if word == "evaluate"@ {
        Some(Command::Evaluate)
    } else if word == "run"@ {
        Some(Command::Run)
    } else {
        None
    }
}

/// The report of a stage on a source text.
pub open spec fn stage_report(command: Command, source: Seq<char>) -> ReportView {
    match command {
        Command::Tokenize => tokenize_report(source),
        Command::Parse => parse_report(source),
        Command::Evaluate => evaluate_report(source),
        Command::Run => run_report(source),
    }
}

impl Command {
    /// The stage that `word` selects, if it selects one.
    pub fn from_word(word: &str) -> (command: Option<Command>)
        ensures
            command == command_named(word@),
    {
        if same_text(word, "tokenize") {
            Some(Command::Tokenize)
        } else if same_text(word, "parse") {
            Some(Command::Parse)
        } else if same_text(word, "evaluate") {
            Some(Command::Evaluate)
        } else if same_text(word, "run") {
            Some(Command::Run)
        } else {
            None
        }
    }
}

/// The lines that report the lexical errors that `tokenizer` met.
fn lexical_messages(tokenizer: &Tokenizer) -> (lines: Vec<String>)
    ensures
        texts(lines@) == lex_messages(tokenizer.errors_view()),
{
    let errors = tokenizer.get_errors();
    let mut lines: Vec<String> = Vec::new();
    let mut i: usize = 0;
    while i < errors.len()
        invariant
            i <= errors.len(),
            lines@.len() == i,
            forall|j: int| 0 <= j < i ==> (#[trigger] lines@[j])@ == lex_message(errors@[j]),
        decreases errors.len() - i,
    {
        lines.push(errors[i].message());
        i += 1;
    }
    assert(texts(lines@) =~= lex_messages(errors@));
    lines
}

/// The report of a stage that stopped at a syntax error.
fn syntax_report(error: ParseError) -> (report: Report)
    ensures
        report@ == syntax_failure(error@),
{
    let mut stderr: Vec<String> = Vec::new();
    stderr.push(error.message());
    let report = Report { stdout: Vec::new(), stderr, exit_code: 65 };
    assert(report@.stdout =~= Seq::<FragmentView>::empty());
    assert(report@.stderr =~= seq![parse_message(error@)]);
    report
}

/// The report of a run that printed `stdout` and ended with `r`.
fn run_report_of(stdout: Vec<Fragment>, r: Result<(), RuntimeError>, Ghost(ran): Ghost<Ran>) -> (report:
    Report)
    requires
        fragment_views(stdout@) == ran.output,
        match r {
            Ok(_) => ran.error is None,
            Err(e) => ran.error == Some(e@),
        },
    ensures
        report@ == run_outcome(ran),
{
    let mut stderr: Vec<String> = Vec::new();
    let exit_code = match r {
        Ok(_) => 0,
        Err(e) => {
            stderr.push(e.message());
            70
        },
    };
    let report = Report { stdout, stderr, exit_code };
    assert(report@.stderr =~= run_outcome(ran).stderr);
    report
}

/// Scans `source` and lists its tokens.
pub fn tokenize(source: String) -> (report: Report)
    requires
        source@.len() < usize::MAX,
    ensures
        report@ == tokenize_report(source@),
{
    let mut tokenizer = Tokenizer::new();
    let exit_code = tokenizer.scan(source);
    proof {
        assert(tokenizer.tokens_view() =~= scanned_tokens(source@));
        assert(tokenizer.errors_view() =~= scanned_errors(source@));
    }
    let stdout = tokenizer.print_tokens();
    let stderr = lexical_messages(&tokenizer);
    Report { stdout, stderr, exit_code }
}

/// What scanning `source` gave: its tokens, or the report of its lexical
/// errors.
fn scan_source(source: String) -> (r: Result<Vec<Token>, Report>)
    requires
        source@.len() < usize::MAX,
    ensures
        match r {
            Ok(tokens) => scanned_errors(source@).len() == 0 && token_views(tokens@)
                == scanned_tokens(source@),
            Err(report) => scanned_errors(source@).len() > 0 && report@ == lexical_failure(
                source@,
            ),
        },
{
    let mut tokenizer = Tokenizer::new();
    let status = tokenizer.scan(source);
    proof {
        assert(tokenizer.tokens_view() =~= scanned_tokens(source@));
        assert(tokenizer.errors_view() =~= scanned_errors(source@));
    }
    if status != 0 {
        let stderr = lexical_messages(&tokenizer);
        let report = Report { stdout: Vec::new(), stderr, exit_code: 65 };
        assert(report@.stdout =~= Seq::<FragmentView>::empty());
        return Err(report);
    }
    Ok(tokenizer.get_tokens())
}

/// Scans and parses `source` as a sequence of expressions and prints the
/// form of each, one behind the other.
pub fn parse(source: String) -> (report: Report)
    requires
        source@.len() < usize::MAX,
    ensures
        report@ == parse_report(source@),
{
    let tokens = match scan_source(source) {
        Ok(tokens) => tokens,
        Err(report) => {
            return report;
        },
    };
    let mut ast = AST::new(tokens);
    match ast.parse_tree() {
        Ok(_) => {},
        Err(error) => {
            return syntax_report(error);
        },
    }
    let exprs = ast.export_exprs();
    let mut stdout: Vec<Fragment> = Vec::new();
    let mut i: usize = 0;
    let ghost items = expression_views(exprs@);
    assert(fragment_views(stdout@) =~= prefix_forms(items.take(0)));
    while i < exprs.len()
        invariant
            i <= exprs.len(),
            items == expression_views(exprs@),
            fragment_views(stdout@) == prefix_forms(items.take(i as int)),
        decreases exprs.len() - i,
    {
        let ghost before = fragment_views(stdout@);
        exprs[i].write_to(&mut stdout);
        proof {
            let next = items.take(i + 1);
            assert(next.drop_last() =~= items.take(i as int));
            assert(next.last() == exprs@[i as int]@);
        }
        i += 1;
    }
    assert(items.take(i as int) =~= items);
    let report = Report { stdout, stderr: Vec::new(), exit_code: 0 };
    assert(report@.stderr =~= Seq::<Seq<char>>::empty());
    assert(ast.parsed() =~= parse_expressions(scanned_tokens(source@), 0).items);
    report
}

/// Runs `stats` in a new global scope and reports what they did.
fn run_program(stats: &Vec<Statement>) -> (report: Report)
    requires
        all_well_formed(statement_views(stats@)),
    ensures
        report@ == run_outcome(execute_all(statement_views(stats@), global_scope())),
{
    let mut env = State::new(None);
    let mut stdout: Vec<Fragment> = Vec::new();
    let r = run_statements(stats, &mut env, &mut stdout);
    let ghost ran = execute_all(statement_views(stats@), global_scope());
    proof {
        assert(appended(Seq::<Fragment>::empty(), stdout@) =~= fragment_views(stdout@));
    }
    run_report_of(stdout, r, Ghost(ran))
}

/// Scans and parses `source` as a sequence of expressions, and prints the
/// value of each.
pub fn evaluate(source: String) -> (report: Report)
    requires
        source@.len() < usize::MAX,
    ensures
        report@ == evaluate_report(source@),
{
    let tokens = match scan_source(source) {
        Ok(tokens) => tokens,
        Err(report) => {
            return report;
        },
    };
    let mut ast = AST::new(tokens);
    match ast.parse_tree() {
        Ok(_) => {},
        Err(error) => {
            return syntax_report(error);
        },
    }
    let mut exprs = ast.export_exprs();
    let ghost items = expression_views(exprs@);
    assert(items =~= parse_expressions(scanned_tokens(source@), 0).items);
    let mut stats: Vec<Statement> = Vec::new();
    let mut i: usize = 0;
    assert(statement_views(stats@) =~= print_each(items.take(0)));
    while i < exprs.len()
        invariant
            i <= exprs.len(),
            items == expression_views(exprs@),
            forall|j: int| 0 <= j < items.len() ==> well_formed(#[trigger] items[j]),
            statement_views(stats@) == print_each(items.take(i as int)),
            all_well_formed(statement_views(stats@)),
        decreases exprs.len() - i,
    {
        let ghost before = statement_views(stats@);
        let stat = Statement::PrintStatement(exprs[i].clone());
        proof {
            lemma_push_view(stats@, stat);
            assert(well_formed(items[i as int]));
            assert(print_each(items.take(i + 1)) =~= print_each(items.take(i as int)).push(
                stat@,
            ));
            assert(all_well_formed(before.push(stat@))) by {
                assert forall|j: int| 0 <= j < before.push(stat@).len() implies
                    crate::statement::statement_well_formed(#[trigger] before.push(stat@)[j]) by {
                    if j < before.len() {
                        assert(before.push(stat@)[j] == before[j]);
                    }
                }
            }
        }
        stats.push(stat);
        i += 1;
    }
    assert(items.take(i as int) =~= items);
    run_program(&stats)
}

/// Scans and parses `source` as a program, and runs it.
pub fn run(source: String) -> (report: Report)
    requires
        source@.len() < usize::MAX,
    ensures
        report@ == run_report(source@),
{
    let tokens = match scan_source(source) {
        Ok(tokens) => tokens,
        Err(report) => {
            return report;
        },
    };
    let mut sst = SST::new(AST::new(tokens));
    match sst.parse_tree() {
        Ok(_) => {},
        Err(error) => {
            return syntax_report(error);
        },
    }
    let mut env = State::new(None);
    let mut stdout: Vec<Fragment> = Vec::new();
    let r = sst.run(&mut env, &mut stdout);
    let ghost ran = execute_all(sst.program(), global_scope());
    proof {
        assert(appended(Seq::<Fragment>::empty(), stdout@) =~= fragment_views(stdout@));
        assert(sst.program() =~= parse_program(scanned_tokens(source@), 0).items);
    }
    run_report_of(stdout, r, Ghost(ran))
}

/// Runs the stage `command` on `source`.
pub fn interpret(command: Command, source: String) -> (report: Report)
    requires
        source@.len() < usize::MAX,
    ensures
        report@ == stage_report(command, source@),
{
    match command {
        Command::Tokenize => tokenize(source),
        Command::Parse => parse(source),
        Command::Evaluate => evaluate(source),
        Command::Run => run(source),
    }
}

} // verus!
