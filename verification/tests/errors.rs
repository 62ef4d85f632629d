use minipre::process_str;
use minipre::Context;
use minipre::Error;

fn expect_syntax(r: Result<String, Error>, line: u32, msg: &str) {
    match r {
        Err(Error::Syntax { line: l, msg: m }) => {
            assert_eq!(l, line);
            assert_eq!(m, msg);
        }
        Err(Error::Io(e)) => panic!("unexpected I/O error: {:?}", e),
        Ok(out) => panic!("expected a syntax error, got output {:?}", out),
    }
}

#[test]
fn missing_term() {
    expect_syntax(
        process_str("#if !\n", &mut Context::new()),
        1,
        "Expected term, found nothing",
    );
}

#[test]
fn undefined_identifier() {
    expect_syntax(
        process_str("x\n#if BAR\n", &mut Context::new()),
        2,
        "Undefined identifier",
    );
}

#[test]
fn bad_digit_literal() {
    expect_syntax(
        process_str("#if 2\n", &mut Context::new()),
        1,
        "Undefined identifier",
    );
}

#[test]
fn trailing_garbage() {
    expect_syntax(
        process_str("#if 1 1\n", &mut Context::new()),
        1,
        "Expected end-of-line",
    );
}

#[test]
fn if_without_expression() {
    expect_syntax(
        process_str("#if\n", &mut Context::new()),
        1,
        "Expected expression after `#if`",
    );
}

#[test]
fn elif_without_expression() {
    expect_syntax(
        process_str("#if 1\n#elif\n", &mut Context::new()),
        2,
        "Expected expression after `#elif`",
    );
}

#[test]
fn else_with_expression() {
    expect_syntax(
        process_str("#if 1\n#else extra\n#endif\n", &mut Context::new()),
        2,
        "Unexpected expression after `#else`",
    );
}

#[test]
fn endif_with_expression() {
    expect_syntax(
        process_str("#if 1\na\n#endif extra\n", &mut Context::new()),
        3,
        "Unexpected expression after `#else`",
    );
}

#[test]
fn unmatched_endif() {
    expect_syntax(
        process_str("a\nb\n#endif\n", &mut Context::new()),
        3,
        "Unexpected `#endif` with no matching `#if`",
    );
}

#[test]
fn unknown_directive() {
    expect_syntax(
        process_str("#define X 1\n", &mut Context::new()),
        1,
        "Unrecognised preprocessor directive",
    );
}

#[test]
fn error_stops_the_run() {
    // The failing line aborts the run: nothing is returned, not even the
    // lines already passed.
    expect_syntax(
        process_str("kept\n#bad\nnever\n", &mut Context::new()),
        2,
        "Unrecognised preprocessor directive",
    );
}

#[test]
fn dead_branch_suppresses_errors() {
    // A malformed or undefined expression inside a dead branch is never
    // evaluated, so it cannot fail the run.
    assert_eq!(
        process_str(
            "#if 0\n#if UNDEFINED !!\nx\n#endif\n#elif 0\n#endif\ndone\n",
            &mut Context::new()
        )
        .unwrap(),
        "done\n"
    );
}

#[test]
fn dead_elif_suppresses_errors() {
    assert_eq!(
        process_str("#if 1\nkept\n#elif NO_SUCH !\ndropped\n#endif\n", &mut Context::new())
            .unwrap(),
        "kept\n"
    );
}
