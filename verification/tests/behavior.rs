use minipre::process_str;
use minipre::Context;
use minipre::Processor;

#[test]
fn empty_input() {
    assert_eq!(process_str("", &mut Context::new()).unwrap(), "");
    assert_eq!(process_str("", Context::new().define("FOO", "1")).unwrap(), "");
}

#[test]
fn pass_through_with_unused_macros() {
    // Macros that never occur leave the text byte-for-byte unchanged.
    let r = process_str(
        "plain text\nno directives here\nlast line without newline",
        Context::new().define("ABSENT", "1").define("MISSING", "0"),
    )
    .unwrap();
    assert_eq!(r, "plain text\nno directives here\nlast line without newline");
}

#[test]
fn define_last_wins() {
    let mut ctx = Context::new();
    ctx.define("FOO", "old").define("FOO", "new");
    assert_eq!(ctx.get_macro("FOO").unwrap(), "new");
    assert!(ctx.get_macro("BAR").is_none());
    assert_eq!(process_str("FOO\n", &mut ctx).unwrap(), "new\n");
}

#[test]
fn define_chains() {
    assert_eq!(
        Context::new()
            .define("foo", "bar")
            .define("quaz", "quux")
            .get_macro("foo")
            .unwrap(),
        "bar"
    );
}

#[test]
fn substitution_does_not_rescan() {
    // A replacement value is not itself substituted again.
    let mut ctx = Context::new();
    ctx.define("A", "B").define("B", "C");
    assert_eq!(process_str("A B\n", &mut ctx).unwrap(), "B C\n");
}

#[test]
fn identifier_resolved_through_table() {
    // A macro whose value names another macro: the substituted directive
    // reads `#if BAR`, and the evaluator looks BAR up in the table.
    let mut ctx = Context::new();
    ctx.define("FOO", "BAR").define("BAR", "1");
    assert_eq!(process_str("#if FOO\nkept\n#endif\n", &mut ctx).unwrap(), "kept\n");
    let mut ctx0 = Context::new();
    ctx0.define("FOO", "BAR").define("BAR", "0");
    assert_eq!(process_str("#if FOO\nkept\n#endif\n", &mut ctx0).unwrap(), "");
}

#[test]
fn comment_stripped_from_directives() {
    assert_eq!(
        process_str("#if 1 // a comment\nkept\n#endif // closing\n", &mut Context::new())
            .unwrap(),
        "kept\n"
    );
    // Outside a directive line, `//` is ordinary text.
    assert_eq!(
        process_str("// kept as text\n", &mut Context::new()).unwrap(),
        "// kept as text\n"
    );
}

#[test]
fn directive_split_on_any_whitespace() {
    assert_eq!(
        process_str("#if\t1\nkept\n#endif\n", &mut Context::new()).unwrap(),
        "kept\n"
    );
}

#[test]
fn double_negation() {
    assert_eq!(
        process_str("#if !!FOO\nkept\n#endif\n", Context::new().define("FOO", "1")).unwrap(),
        "kept\n"
    );
    assert_eq!(
        process_str("#if ! ! !FOO\nkept\n#endif\n", Context::new().define("FOO", "1")).unwrap(),
        ""
    );
}

#[test]
fn equality_chain_left_to_right() {
    // (1 == 1) == 1  ->  true
    assert_eq!(
        process_str("#if 1 == 1 == 1\nkept\n#endif\n", &mut Context::new()).unwrap(),
        "kept\n"
    );
    // (0 == 0) == 0  ->  false
    assert_eq!(
        process_str("#if 0 == 0 == 0\nkept\n#endif\n", &mut Context::new()).unwrap(),
        ""
    );
    // (1 == 0) == 0  ->  true
    assert_eq!(
        process_str("#if 1 == 0 == 0\nkept\n#endif\n", &mut Context::new()).unwrap(),
        "kept\n"
    );
}

#[test]
fn nested_blocks() {
    assert_eq!(
        process_str(
            "#if 1\nouter\n#if 0\ninner dropped\n#else\ninner kept\n#endif\n#endif\n",
            &mut Context::new()
        )
        .unwrap(),
        "outer\ninner kept\n"
    );
}

#[test]
fn nested_block_in_dead_branch_stays_dead() {
    // Even a true condition nested under a false one emits nothing.
    assert_eq!(
        process_str(
            "#if 0\n#if 1\ndropped\n#endif\n#else\nkept\n#endif\n",
            &mut Context::new()
        )
        .unwrap(),
        "kept\n"
    );
}

#[test]
fn unterminated_if_is_detectable() {
    // The whole-text entry point accepts an unterminated block silently ...
    assert_eq!(process_str("#if 1\nkept", &mut Context::new()).unwrap(), "kept");
    // ... while a caller driving a Processor can see the open block.
    let ctx = Context::new();
    let mut proc = Processor::new();
    assert_eq!(proc.process_line(&ctx, "#if 1\n").unwrap(), None);
    assert_eq!(proc.process_line(&ctx, "kept\n").unwrap().unwrap(), "kept\n");
    assert_eq!(proc.open_blocks(), 1);
    assert_eq!(proc.lines_seen(), 2);
    assert_eq!(proc.process_line(&ctx, "#endif\n").unwrap(), None);
    assert_eq!(proc.open_blocks(), 0);
}

#[test]
fn processor_line_numbers() {
    let ctx = Context::new();
    let mut proc = Processor::new();
    assert_eq!(proc.lines_seen(), 0);
    assert!(proc.process_line(&ctx, "a\n").is_ok());
    match proc.process_line(&ctx, "#endif\n") {
        Err(minipre::Error::Syntax { line, msg }) => {
            assert_eq!(line, 2);
            assert_eq!(msg, "Unexpected `#endif` with no matching `#if`");
        }
        other => panic!("expected a syntax error, got {:?}", other),
    }
}

#[test]
fn substitution_inside_directive_line() {
    // Substitution runs before classification: a macro can spell the
    // condition out.
    assert_eq!(
        process_str("#if COND\nkept\n#endif\n", Context::new().define("COND", "1")).unwrap(),
        "kept\n"
    );
}

#[test]
fn terminators_preserved() {
    assert_eq!(
        process_str("a\r\nb\n", &mut Context::new()).unwrap(),
        "a\r\nb\n"
    );
}
