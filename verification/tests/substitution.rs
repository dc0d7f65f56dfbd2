use sed_rs::Sed;

fn apply(expr: &str, input: &str) -> String {
    let sed = Sed::parse(&[expr]).unwrap();
    sed.apply(input)
}

#[test]
fn basic_substitution() {
    assert_eq!(apply("s/foo/bar/", "foo baz"), "bar baz");
}

#[test]
fn global_flag() {
    assert_eq!(apply("s/o/0/g", "foo boo"), "f00 b00");
}

#[test]
fn case_insensitive() {
    assert_eq!(apply("s/foo/bar/gi", "FOO Foo foo"), "bar bar bar");
}

#[test]
fn alternate_delimiter() {
    assert_eq!(apply("s|/tmp/test|<TMP>|g", "/tmp/test/file"), "<TMP>/file");
}

#[test]
fn bre_repetition() {
    assert_eq!(
        apply(
            r"s/[0-9]\{4\}-[0-9]\{2\}-[0-9]\{2\}/DATE/g",
            "today is 2026-03-25"
        ),
        "today is DATE"
    );
}

#[test]
fn pid_normalization() {
    assert_eq!(
        apply(
            "s|/tmp/favicon-reg-[0-9]*|/tmp/favicon-reg-PID|g",
            "/tmp/favicon-reg-12345"
        ),
        "/tmp/favicon-reg-PID"
    );
}

#[test]
fn multiple_commands_semicolon() {
    let sed = Sed::parse(&["s/foo/bar/g; s/baz/qux/g"]).unwrap();
    assert_eq!(sed.apply("foo baz"), "bar qux");
}

#[test]
fn multiple_expressions() {
    let sed = Sed::parse(&["s/foo/bar/g", "s/baz/qux/g"]).unwrap();
    assert_eq!(sed.apply("foo baz"), "bar qux");
}

#[test]
fn backreference_in_replacement() {
    assert_eq!(
        apply(r"s/\(hello\) \(world\)/\2 \1/", "hello world"),
        "world hello"
    );
}

#[test]
fn ampersand_whole_match() {
    assert_eq!(apply("s/foo/[&]/", "foo bar"), "[foo] bar");
}

#[test]
fn escaped_delimiter() {
    assert_eq!(apply(r"s/a\/b/c/", "a/b"), "c");
}

#[test]
fn path_normalization() {
    let sed = Sed::parse(&[
        r"s|/private/var/[^ ]*|<TMPDIR>|g; s|/var/[^ ]*|<TMPDIR>|g; s|/tmp/[^ ]*|<TMPDIR>|g",
    ])
    .unwrap();
    assert_eq!(
        sed.apply("path: /private/var/folders/xx/123 end"),
        "path: <TMPDIR> end"
    );
    assert_eq!(sed.apply("path: /tmp/foo end"), "path: <TMPDIR> end");
}

#[test]
fn literal_dollar_in_replacement() {
    assert_eq!(apply("s/price/\\$5/", "the price is"), "the $5 is");
}
