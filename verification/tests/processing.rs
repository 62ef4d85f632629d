use minipre::process_str;
use minipre::Context;

#[test]
fn pass_through() {
    assert_eq!(
        &process_str(
            "
            some
            multiline
            text
            with # symbols
        ",
            &mut Context::new()
        )
        .unwrap(),
        "
            some
            multiline
            text
            with # symbols
        "
    );
}

#[test]
fn variable() {
    assert_eq!(
        &process_str(
            "
            some
            #if FOO
            multiline
            text
            #endif
            with # symbols
        ",
            Context::new().define("FOO", "0")
        )
        .unwrap(),
        "
            some
            with # symbols
        "
    );

    assert_eq!(
        &process_str(
            "
            some
            #if FOO
            multiline
            text
            #endif
            with # symbols
        ",
            Context::new().define("FOO", "1")
        )
        .unwrap(),
        "
            some
            multiline
            text
            with # symbols
        "
    );
}

#[test]
fn constant() {
    assert_eq!(
        &process_str(
            "
            some
            #if 0
            multiline
            text
            #endif
            with # symbols
        ",
            &mut Context::new()
        )
        .unwrap(),
        "
            some
            with # symbols
        "
    );

    assert_eq!(
        &process_str(
            "
            some
            #if 1
            multiline
            text
            #endif
            with # symbols
        ",
            &mut Context::new()
        )
        .unwrap(),
        "
            some
            multiline
            text
            with # symbols
        "
    );
}

#[test]
fn negation() {
    assert_eq!(
        &process_str(
            "
            some
            #if !FOO
            multiline
            text
            #endif
            with # symbols
        ",
            Context::new().define("FOO", "1")
        )
        .unwrap(),
        "
            some
            with # symbols
        "
    );

    assert_eq!(
        &process_str(
            "
            some
            #if !FOO
            multiline
            text
            #endif
            with # symbols
        ",
            Context::new().define("FOO", "0")
        )
        .unwrap(),
        "
            some
            multiline
            text
            with # symbols
        "
    );
}

#[test]
fn else_() {
    assert_eq!(
        &process_str(
            "
            some
            #if FOO
            multiline
            #else
            text
            #endif
            with # symbols
        ",
            Context::new().define("FOO", "0")
        )
        .unwrap(),
        "
            some
            text
            with # symbols
        "
    );

    assert_eq!(
        &process_str(
            "
            some
            #if FOO
            multiline
            #else
            text
            #endif
            with # symbols
        ",
            Context::new().define("FOO", "1")
        )
        .unwrap(),
        "
            some
            multiline
            with # symbols
        "
    );
}

#[test]
fn elif() {
    assert_eq!(
        &process_str(
            "
            some
            #if FOO
            multiline
            #elif 1
            text
            #endif
            with # symbols
        ",
            Context::new().define("FOO", "0")
        )
        .unwrap(),
        "
            some
            text
            with # symbols
        "
    );

    assert_eq!(
        &process_str(
            "
            some
            #if FOO
            multiline
            #elif 1
            text
            #endif
            with # symbols
        ",
            Context::new().define("FOO", "1")
        )
        .unwrap(),
        "
            some
            multiline
            with # symbols
        "
    );

    assert_eq!(
        &process_str(
            "
            some
            #if FOO
            multiline
            #elif 0
            text
            #endif
            with # symbols
        ",
            Context::new().define("FOO", "0")
        )
        .unwrap(),
        "
            some
            with # symbols
        "
    );

    assert_eq!(
        &process_str(
            "
            some
            #if FOO
            multiline
            #elif 0
            text
            #else
            with # symbols
            #endif
        ",
            Context::new().define("FOO", "0")
        )
        .unwrap(),
        "
            some
            with # symbols
        "
    );

    assert_eq!(
        &process_str(
            "
            some
            #if FOO
            multiline
            #elif 1
            text
            #else
            with # symbols
            #endif
        ",
            Context::new().define("FOO", "0")
        )
        .unwrap(),
        "
            some
            text
        "
    );
}

#[test]
fn equality() {
    assert_eq!(
        &process_str(
            "
            some
            #if FOO == 1
            multiline
            text
            #endif
            with # symbols
        ",
            Context::new().define("FOO", "0")
        )
        .unwrap(),
        "
            some
            with # symbols
        "
    );

    assert_eq!(
        &process_str(
            "
            some
            #if FOO == 0
            multiline
            text
            #endif
            with # symbols
        ",
            Context::new().define("FOO", "0")
        )
        .unwrap(),
        "
            some
            multiline
            text
            with # symbols
        "
    );
}

#[test]
fn expansion() {
    assert_eq!(
        &process_str(
            "
            some
            FOO-BAR
            multiline
        ",
            Context::new().define("FOO", "0")
        )
        .unwrap(),
        "
            some
            0-BAR
            multiline
        "
    );

    assert_eq!(
        &process_str(
            "
            some
            FOO_BAR
            multiline
        ",
            Context::new().define("FOO", "0")
        )
        .unwrap(),
        "
            some
            FOO_BAR
            multiline
        "
    );
}
