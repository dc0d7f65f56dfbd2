use sed_rs::{bre_to_ere, convert_replacement, parse_s_fields, split_commands, Sed};

fn parse_error(exprs: &[&str]) -> String {
    match Sed::parse(exprs) {
        Ok(_) => panic!("expected a parse error"),
        Err(e) => e.message(),
    }
}

#[test]
fn only_first_match_without_g() {
    assert_eq!(Sed::parse(&["s/o/0/"]).unwrap().apply("foo boo"), "f0o boo");
}

#[test]
fn no_match_leaves_line_unchanged() {
    assert_eq!(Sed::parse(&["s/xyz/abc/g"]).unwrap().apply("hello"), "hello");
}

#[test]
fn commands_apply_in_order() {
    let sed = Sed::parse(&["s/a/b/", "s/b/c/"]).unwrap();
    assert_eq!(sed.apply("a"), "c");
    let first = Sed::parse(&["s/a/b/"]).unwrap();
    let second = Sed::parse(&["s/b/c/"]).unwrap();
    assert_eq!(sed.apply("a"), second.apply(&first.apply("a")));
}

#[test]
fn uppercase_i_flag_ignores_case() {
    assert_eq!(Sed::parse(&["s/abc/x/I"]).unwrap().apply("ABC"), "x");
}

#[test]
fn newline_and_tab_in_replacement() {
    assert_eq!(Sed::parse(&[r"s/ /\n/"]).unwrap().apply("a b"), "a\nb");
    assert_eq!(Sed::parse(&[r"s/ /\t/"]).unwrap().apply("a b"), "a\tb");
}

#[test]
fn escaped_ampersand_is_literal() {
    assert_eq!(Sed::parse(&[r"s/and/\&/"]).unwrap().apply("this and that"), "this & that");
}

#[test]
fn missing_trailing_delimiter_is_tolerated() {
    assert_eq!(Sed::parse(&["s/foo/bar"]).unwrap().apply("foo"), "bar");
}

#[test]
fn ere_interval_also_works() {
    assert_eq!(
        Sed::parse(&["s/[0-9]{4}/YYYY/"]).unwrap().apply("in 2026"),
        "in YYYY"
    );
}

#[test]
fn bre_alternation_and_plus() {
    assert_eq!(Sed::parse(&[r"s/a\+\|b/X/g"]).unwrap().apply("aaab"), "XX");
}

#[test]
fn clone_applies_the_same() {
    let sed = Sed::parse(&["s/x/y/g"]).unwrap();
    let copy = sed.clone();
    assert_eq!(copy.apply("axbx"), "ayby");
}

#[test]
fn error_unsupported_command() {
    assert_eq!(parse_error(&["p"]), "unsupported command: p");
}

#[test]
fn error_unsupported_command_is_trimmed() {
    assert_eq!(parse_error(&["  x/a/b/  "]), "unsupported command: x/a/b/");
}

#[test]
fn error_unexpected_end() {
    assert_eq!(parse_error(&["s"]), "unexpected end of substitution");
}

#[test]
fn error_incomplete_substitution() {
    assert_eq!(parse_error(&["s/abc"]), "incomplete substitution command");
}

#[test]
fn error_no_commands() {
    assert_eq!(parse_error(&[]), "no commands provided");
    assert_eq!(parse_error(&[" ; ;  "]), "no commands provided");
}

#[test]
fn error_invalid_regex() {
    let m = parse_error(&["s/(/x/"]);
    assert!(m.starts_with("invalid regex: "));
    assert!(m.len() > "invalid regex: ".len());
}

#[test]
fn first_error_wins() {
    assert_eq!(parse_error(&["s/a/b/", "q", "s/("]), "unsupported command: q");
}

#[test]
fn split_keeps_semicolons_inside_substitution() {
    assert_eq!(
        split_commands("s/a;b/c/g; s/x/y/"),
        vec!["s/a;b/c/g".to_string(), " s/x/y/".to_string()]
    );
}

#[test]
fn split_drops_blank_commands() {
    assert_eq!(split_commands("  ;  ; "), Vec::<String>::new());
    assert_eq!(split_commands("a;;b"), vec!["a".to_string(), "b".to_string()]);
}

#[test]
fn split_escaped_delimiter_and_lone_s() {
    assert_eq!(split_commands(r"s/a\/b/c/;s"), vec![r"s/a\/b/c/".to_string(), "s".to_string()]);
}

#[test]
fn fields_of_any_delimiter() {
    let (p, r, f) = parse_s_fields(r"a\#b#c#gi", '#').unwrap();
    assert_eq!((p.as_str(), r.as_str(), f.as_str()), ("a#b", "c", "gi"));
}

#[test]
fn fields_keep_other_escapes() {
    let (p, r, f) = parse_s_fields(r"\d+/\1/", '/').unwrap();
    assert_eq!((p.as_str(), r.as_str(), f.as_str()), (r"\d+", r"\1", ""));
}

#[test]
fn fields_unclosed_replacement() {
    let (p, r, f) = parse_s_fields("a/b", '/').unwrap();
    assert_eq!((p.as_str(), r.as_str(), f.as_str()), ("a", "b", ""));
}

#[test]
fn fields_unclosed_pattern_is_an_error() {
    let e = parse_s_fields("abc", '/').unwrap_err();
    assert_eq!(e.0, "incomplete substitution command");
}

#[test]
fn bre_conversions() {
    assert_eq!(bre_to_ere(r"\(a\)\+\?\|b"), "(a)+?|b");
    assert_eq!(bre_to_ere(r"x\{2,3\}"), "x{2,3}");
    assert_eq!(bre_to_ere(r"x\{3"), "x{3}");
    assert_eq!(bre_to_ere(r"\d\."), r"\d\.");
}

#[test]
fn ere_pattern_passes_through() {
    assert_eq!(bre_to_ere("[0-9]{4}-(a|b)+"), "[0-9]{4}-(a|b)+");
}

#[test]
fn replacement_conversions() {
    assert_eq!(
        convert_replacement(r"\1-&-\&-\$-$-\n\t\\-\q"),
        "$1-$0-&-$$-$$-\n\t\\-\\q"
    );
}

#[test]
fn plain_replacement_passes_through() {
    assert_eq!(convert_replacement("hello world"), "hello world");
}

#[test]
fn group_reference_followed_by_letter() {
    assert_eq!(Sed::parse(&[r"s/\(a\)/\1x/"]).unwrap().apply("a"), "ax");
}

#[test]
fn whole_match_followed_by_letters() {
    assert_eq!(Sed::parse(&["s/foo/&bar/"]).unwrap().apply("foo"), "foobar");
}

#[test]
fn substitution_after_whitespace_keeps_its_semicolon() {
    let pieces: Vec<String> = split_commands("s/x/y/; s/a;b/c/");
    let trimmed: Vec<&str> = pieces.iter().map(|c| c.trim()).collect();
    assert_eq!(trimmed, vec!["s/x/y/", "s/a;b/c/"]);
    let sed = Sed::parse(&["s/x/y/; s/a;b/c/"]).unwrap();
    assert_eq!(sed.apply("x a;b"), "y c");
}

#[test]
fn delimiter_choice_changes_nothing() {
    let a = Sed::parse(&["s#foo#bar#g"]).unwrap();
    let b = Sed::parse(&["s/foo/bar/g"]).unwrap();
    let c = Sed::parse(&["s foo bar g"]).unwrap();
    for line in ["foo foo", "nofo", "xfoox"] {
        assert_eq!(a.apply(line), b.apply(line));
        assert_eq!(c.apply(line), b.apply(line));
    }
}

#[test]
fn bre_and_ere_forms_agree() {
    let a = Sed::parse(&[r"s/[0-9]\{4\}/Y/g"]).unwrap();
    let b = Sed::parse(&["s/[0-9]{4}/Y/g"]).unwrap();
    for line in ["1999 and 2026", "12", ""] {
        assert_eq!(a.apply(line), b.apply(line));
    }
}

#[test]
fn split_pieces_are_stretches_of_the_expression() {
    let expr = " s/a/b/ ;; x ; s|c|d|g ";
    let pieces = split_commands(expr);
    let mut at = 0;
    for p in &pieces {
        assert!(!p.trim().is_empty());
        let found = expr[at..].find(p.as_str()).unwrap();
        assert!(expr[at..at + found].chars().all(|c| c == ';' || c.is_whitespace()));
        at += found + p.len();
    }
    assert!(expr[at..].chars().all(|c| c == ';' || c.is_whitespace()));
    assert_eq!(pieces.len(), 3);
}

#[test]
fn references_stay_unbraced_when_nothing_name_like_follows() {
    assert_eq!(convert_replacement(r"\2 \1"), "$2 $1");
    assert_eq!(convert_replacement("[&]"), "[$0]");
    assert_eq!(convert_replacement(r"\1"), "$1");
    assert_eq!(convert_replacement("&"), "$0");
}

#[test]
fn references_are_braced_before_name_characters() {
    assert_eq!(convert_replacement(r"\1x&bar"), "${1}x${0}bar");
    assert_eq!(convert_replacement(r"\1_&9"), "${1}_${0}9");
    assert_eq!(convert_replacement(r"\1\2"), "$1$2");
}
