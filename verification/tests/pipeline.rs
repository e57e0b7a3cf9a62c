use lox::interpreter::{evaluate, interpret, parse, run, tokenize, Command, Report};
use lox::text::{Fragment, NumberForm};

fn digits(bits: u64, form: NumberForm) -> String {
    let n = f64::from_bits(bits);
    match form {
        NumberForm::Whole => format!("{:.0}", n),
        NumberForm::PointedWhole => format!("{:.1}", n),
        NumberForm::Shortest => format!("{}", n),
        NumberForm::Exponent => format!("{:?}", n),
    }
}

fn render(fragments: &[Fragment]) -> String {
    let mut text = String::new();
    for fragment in fragments {
        match fragment {
            Fragment::Text(s) => text.push_str(s),
            Fragment::Number(bits, form) => text.push_str(&digits(*bits, *form)),
        }
    }
    text
}

fn outcome(report: Report) -> (String, Vec<String>, i32) {
    (render(&report.stdout), report.stderr, report.exit_code)
}

fn ran(source: &str) -> (String, Vec<String>, i32) {
    outcome(run(source.to_string()))
}

fn ok(stdout: &str) -> (String, Vec<String>, i32) {
    (stdout.to_string(), vec![], 0)
}

fn failed(stdout: &str, message: &str, code: i32) -> (String, Vec<String>, i32) {
    (stdout.to_string(), vec![message.to_string()], code)
}

#[test]
fn run_prints_a_sum() {
    assert_eq!(ran("print 1 + 2;"), ok("3\n"));
}

#[test]
fn run_joins_strings() {
    assert_eq!(ran("print \"foo\" + \"bar\";"), ok("foobar\n"));
}

#[test]
fn run_adds_variables() {
    assert_eq!(ran("var a = 1; var b = 2; print a + b;"), ok("3\n"));
}

#[test]
fn run_shadows_in_a_block() {
    assert_eq!(
        ran("var a = \"outer\"; { var a = \"inner\"; print a; } print a;"),
        ok("inner\nouter\n")
    );
}

#[test]
fn run_rejects_number_plus_string() {
    assert_eq!(
        ran("print 1 + \"x\";"),
        failed("", "Operands must be two numbers or two strings.", 70)
    );
}

#[test]
fn run_rejects_an_undeclared_variable() {
    assert_eq!(ran("print a;"), failed("", "Undefined variable a.", 70));
}

#[test]
fn run_rejects_assignment_without_declaration() {
    assert_eq!(ran("x = 1;"), failed("", "Undefined variable x.", 70));
    assert_eq!(ran("{ var x = 1; } x = 2;"), failed("", "Undefined variable x.", 70));
    assert_eq!(ran("var x; x = 1; print x;"), ok("1\n"));
}

#[test]
fn block_scoping_for_literals_of_every_kind() {
    let literals = ["1", "2.5", "\"a\"", "\"b\"", "true", "false", "nil"];
    let printed = ["1", "2.5", "a", "b", "true", "false", "nil"];
    for (a, shown) in literals.iter().zip(printed) {
        for b in literals {
            if *a != b {
                let source = format!("var x = {a}; {{ var x = {b}; }} print x;");
                assert_eq!(ran(&source), ok(&format!("{shown}\n")), "{source}");
            }
        }
    }
}

#[test]
fn run_keeps_what_was_printed_before_a_runtime_error() {
    assert_eq!(
        ran("print 1; print -\"a\"; print 2;"),
        failed("1\n", "Operand must be a number.", 70)
    );
    assert_eq!(
        ran("print \"a\"; { print \"b\"; print 1 < \"2\"; } print \"c\";"),
        failed("a\nb\n", "Operands must be numbers.", 70)
    );
}

#[test]
fn run_prints_values_in_their_canonical_form() {
    assert_eq!(
        ran("print nil; print true; print false; print 3; print 3.0; print 3.14; print \"x y\"; print 0.1 + 0.2; print 1 / 3; print 100 * 100;"),
        ok("nil\ntrue\nfalse\n3\n3\n3.14\nx y\n0.30000000000000004\n0.3333333333333333\n10000\n")
    );
}

#[test]
fn run_declares_nil_by_default_and_overwrites_redeclarations() {
    assert_eq!(ran("var a; print a; var a = 2; print a; var a = \"s\"; print a;"), ok("nil\n2\ns\n"));
}

#[test]
fn run_assigns_through_blocks() {
    assert_eq!(
        ran("var a = 1; { a = 2; { a = a + 1; var a = 10; a = a + 1; print a; } print a; } print a;"),
        ok("11\n3\n3\n")
    );
}

#[test]
fn run_evaluates_expression_statements_for_their_effects() {
    assert_eq!(ran("var a = 1; a = a + 1; 1 + 1; \"x\"; print a;"), ok("2\n"));
}

#[test]
fn run_of_nothing_prints_nothing() {
    assert_eq!(ran(""), ok(""));
    assert_eq!(ran("// nothing here\n"), ok(""));
    assert_eq!(ran("{}"), ok(""));
}

#[test]
fn run_stops_at_lexical_errors() {
    assert_eq!(
        ran("print 1;\nprint @;\nprint \"open"),
        (
            String::new(),
            vec![
                "[line 2] Error: Unexpected character: @".to_string(),
                "[line 3] Error: Unterminated string.".to_string(),
            ],
            65
        )
    );
}

#[test]
fn run_stops_at_the_first_syntax_error_before_running_anything() {
    assert_eq!(
        ran("print 1;\nprint (2;\nprint +;"),
        failed("", "[line 2] Error at ';': Expect expression.", 65)
    );
    assert_eq!(ran("print 1"), failed("", "[line 1] Error at '': expected semicolon", 65));
    assert_eq!(ran("var = 1;"), failed("", "[line 1] Error at '=': Expect variable name.", 65));
    assert_eq!(ran("{ print 1;"), failed("", "[line 1] Error at '': Expect '}' after block.", 65));
    assert_eq!(ran("1 = 2;"), failed("", "Invalid assignment target.", 65));
    assert_eq!(ran("(a) = 1;"), failed("", "Invalid assignment target.", 65));
    assert_eq!(ran("var a;\na + 1 = 2;"), failed("", "Invalid assignment target.", 65));
    assert_eq!(ran("\n\nprint );"), failed("", "[line 3] Error at ')': Expect expression.", 65));
}

#[test]
fn tokenize_lists_tokens() {
    assert_eq!(
        outcome(tokenize("var x = (42 + 3.50) * \"s t\"; // done".to_string())),
        ok("VAR var null\nIDENTIFIER x null\nEQUAL = null\nLEFT_PAREN ( null\nNUMBER 42 42.0\nPLUS + null\nNUMBER 3.50 3.5\nRIGHT_PAREN ) null\nSTAR * null\nSTRING \"s t\" s t\nSEMICOLON ; null\nEOF  null\n")
    );
}

#[test]
fn tokenize_of_nothing_lists_eof() {
    assert_eq!(outcome(tokenize(String::new())), ok("EOF  null\n"));
}

#[test]
fn tokenize_lists_tokens_and_errors() {
    assert_eq!(
        outcome(tokenize(",.$(#\n\"x".to_string())),
        (
            "COMMA , null\nDOT . null\nLEFT_PAREN ( null\nEOF  null\n".to_string(),
            vec![
                "[line 1] Error: Unexpected character: $".to_string(),
                "[line 1] Error: Unexpected character: #".to_string(),
                "[line 2] Error: Unterminated string.".to_string(),
            ],
            65
        )
    );
}

#[test]
fn tokenize_normalizes_numbers() {
    assert_eq!(
        outcome(tokenize("42 3.14 007 1.50 200.00".to_string())),
        ok("NUMBER 42 42.0\nNUMBER 3.14 3.14\nNUMBER 007 7.0\nNUMBER 1.50 1.5\nNUMBER 200.00 200.0\nEOF  null\n")
    );
}

#[test]
fn parse_prints_prefix_forms() {
    assert_eq!(outcome(parse("1 + 2 * 3".to_string())), ok("(+ 1.0 (* 2.0 3.0))"));
    assert_eq!(
        outcome(parse("(\"a\" + \"b\") == !nil\n(-x) < 7.25".to_string())),
        ok("(== (group (+ a b)) (! nil))(< (group (- x)) 7.25)")
    );
    assert_eq!(outcome(parse("(a) = 1".to_string())), failed("", "Invalid assignment target.", 65));
    assert_eq!(outcome(parse(String::new())), ok(""));
}

#[test]
fn parse_prints_large_and_small_numbers_with_an_exponent() {
    assert_eq!(
        outcome(parse("1000000000000000000000 0.0000001 1000000000000000".to_string())),
        ok("1e211e-71000000000000000.0")
    );
    assert_eq!(
        outcome(tokenize("1000000000000000000000".to_string())),
        ok("NUMBER 1000000000000000000000 1000000000000000000000.0\nEOF  null\n")
    );
    assert_eq!(
        outcome(run("print 1000000000000000000000; print 100000000000000000000000;".to_string())),
        ok("1000000000000000000000\n99999999999999991611392\n")
    );
}

#[test]
fn parse_reports_errors() {
    assert_eq!(
        outcome(parse("(1 + 2".to_string())),
        failed("", "[line 1] Error at '': Expect expression.", 65)
    );
    assert_eq!(
        outcome(parse("1 + 2\n) 3".to_string())),
        failed("", "[line 2] Error at ')': Expect expression.", 65)
    );
    assert_eq!(
        outcome(parse("1 + $".to_string())),
        failed("", "[line 1] Error: Unexpected character: $", 65)
    );
}

#[test]
fn evaluate_prints_values() {
    assert_eq!(outcome(evaluate("1 + 2".to_string())), ok("3\n"));
    assert_eq!(
        outcome(evaluate("\"a\" + \"b\"\n7 / 2\n!nil\n1 == 1.0\nnil".to_string())),
        ok("ab\n3.5\ntrue\ntrue\nnil\n")
    );
    assert_eq!(outcome(evaluate(String::new())), ok(""));
}

#[test]
fn evaluate_reports_errors() {
    assert_eq!(
        outcome(evaluate("1 + 1\n(-\"a\")\n2".to_string())),
        failed("2\n", "Operand must be a number.", 70)
    );
    assert_eq!(
        outcome(evaluate("1 * \"a\"".to_string())),
        failed("", "Operands must be numbers.", 70)
    );
    assert_eq!(outcome(evaluate("a".to_string())), failed("", "Undefined variable a.", 70));
    assert_eq!(outcome(evaluate("a = 1".to_string())), failed("", "Undefined variable a.", 70));
    assert_eq!(
        outcome(evaluate("1 +".to_string())),
        failed("", "[line 1] Error at '': Expect expression.", 65)
    );
    assert_eq!(
        outcome(evaluate("1 ~ 2".to_string())),
        failed("", "[line 1] Error: Unexpected character: ~", 65)
    );
}

#[test]
fn commands_select_stages() {
    assert_eq!(Command::from_word("tokenize"), Some(Command::Tokenize));
    assert_eq!(Command::from_word("parse"), Some(Command::Parse));
    assert_eq!(Command::from_word("evaluate"), Some(Command::Evaluate));
    assert_eq!(Command::from_word("run"), Some(Command::Run));
    assert_eq!(Command::from_word("Run"), None);
    assert_eq!(Command::from_word(""), None);
    assert_eq!(Command::from_word("runs"), None);
    let source = "print 1 + 2;".to_string();
    assert_eq!(outcome(interpret(Command::Run, source.clone())), ok("3\n"));
    assert_eq!(
        outcome(interpret(Command::Evaluate, "1 + 2".to_string())),
        ok("3\n")
    );
    assert_eq!(outcome(interpret(Command::Parse, "1 + 2".to_string())), ok("(+ 1.0 2.0)"));
    assert_eq!(
        outcome(interpret(Command::Tokenize, "1".to_string())),
        ok("NUMBER 1 1.0\nEOF  null\n")
    );
}

#[test]
fn long_programs_run() {
    let mut source = String::from("var total = 0;\n");
    for i in 0..20000 {
        source.push_str(&format!("total = total + {i}; // step {i}\n"));
    }
    source.push_str("print total;\n");
    assert_eq!(ran(&source), ok("199990000\n"));
    let listing = outcome(tokenize(source));
    assert_eq!(listing.0.lines().count(), 5 + 6 * 20000 + 3 + 1);
    assert_eq!(listing.2, 0);
}

#[test]
fn deeply_nested_blocks_release_their_scopes() {
    let depth = 200;
    let mut source = String::from("var a = 0;");
    for i in 1..=depth {
        source.push_str(&format!("{{ var a = {i}; "));
    }
    source.push_str("print a;");
    for _ in 0..depth {
        source.push_str(" }");
    }
    source.push_str(" print a;");
    assert_eq!(ran(&source), ok("200\n0\n"));
}

fn printed(source: &str) -> Option<String> {
    let (stdout, _, code) = outcome(parse(source.to_string()));
    if code == 0 {
        Some(stdout)
    } else {
        None
    }
}

#[test]
fn printing_again_changes_nothing_but_unary_operations() {
    // Names and the three words are read back as themselves.
    for source in ["a", "_x1", "nil", "true", "false", "a = b", "a = 1 + 2", "x = y = z"] {
        let once = printed(source).unwrap();
        assert_eq!(printed(&once), Some(once.clone()), "{source}");
    }
    // The printed form of every other operation but a unary one is rejected.
    for source in [
        "a + b",
        "a - b",
        "a * b",
        "a / b",
        "a == b",
        "a != b",
        "a < b",
        "a <= b",
        "a > b",
        "a >= b",
        "(a)",
        "((a))",
        "(a + b)",
        "(-a)",
        "a - -b",
        "a - (b)",
        "-a - b",
        "(a) - b",
        "!a == nil",
        "a + b * c - d",
        "-(a + b)",
        "!(a)",
        "-(a - b)",
    ] {
        let once = printed(source).unwrap();
        assert_eq!(printed(&once), None, "{source} is printed as {once}");
    }
    // A unary operation is read back in parentheses.
    for (source, once, twice) in [
        ("-a", "(- a)", "(group (- a))"),
        ("!a", "(! a)", "(group (! a))"),
        ("!true", "(! true)", "(group (! true))"),
        ("-nil", "(- nil)", "(group (- nil))"),
        ("--a", "(- (- a))", "(group (- (group (- a))))"),
        ("!-!a", "(! (- (! a)))", "(group (! (group (- (group (! a))))))"),
        ("-x = 1", "(- x)", "(group (- x))"),
    ] {
        if source != "-x = 1" {
            assert_eq!(printed(source).as_deref(), Some(once), "{source}");
        }
        assert_eq!(printed(once).as_deref(), Some(twice), "{once}");
    }
}

#[test]
fn printed_forms_stand_behind_one_another() {
    assert_eq!(printed("a b"), Some("ab".to_string()));
    assert_eq!(printed("a\nb\nnil"), Some("abnil".to_string()));
    assert_eq!(printed("1 (2) !3"), Some("1.0(group 2.0)(! 3.0)".to_string()));
}
