use opseq::quote_operation_sequence;
use opseq::tokenize_operation_sequence;

fn owned(ops: &[&[&str]]) -> Vec<Vec<String>> {
    ops.iter()
        .map(|op| op.iter().map(|t| t.to_string()).collect())
        .collect()
}

#[test]
fn quoting_writes_plain_tokens_bare_and_spaced_tokens_quoted() {
    let ops = owned(&[&["set", "arg 1"]]);
    assert_eq!(quote_operation_sequence(&ops), r#"set "arg 1""#);
}

#[test]
fn quoting_joins_operations_with_spaced_semicolons() {
    let ops = owned(&[&["open"], &["next"], &["prev"]]);
    assert_eq!(quote_operation_sequence(&ops), "open ; next ; prev");
}

#[test]
fn quoting_escapes_embedded_quotes_and_backslashes() {
    let ops = owned(&[&["set", "a \"b\\c\""]]);
    assert_eq!(quote_operation_sequence(&ops), "set \"a \\\"b\\\\c\\\"\"");
}

#[test]
fn quoting_quotes_empty_and_semicolon_laden_tokens() {
    let ops = owned(&[&["set", "", "a;b"]]);
    assert_eq!(quote_operation_sequence(&ops), "set \"\" \"a;b\"");
}

#[test]
fn quoting_the_empty_sequence_writes_the_empty_line() {
    let ops: Vec<Vec<String>> = Vec::new();
    assert_eq!(quote_operation_sequence(&ops), "");
}

#[test]
fn quoted_form_parses_back_to_the_same_operations() {
    let cases: Vec<Vec<Vec<String>>> = vec![
        owned(&[&["open"]]),
        owned(&[&["set", "arg 1"], &["set", "arg 2", "arg 3"]]),
        owned(&[&["set", "browser", "sleep 3; do-something ; echo hi"], &["open-in-browser"]]),
        owned(&[&["set", "a \"b\\c", "\t", "", ";", "x y\tz"]]),
        owned(&[&["q"], &["w", "e"]]),
        Vec::new(),
    ];
    for ops in cases {
        let line = quote_operation_sequence(&ops);
        assert_eq!(tokenize_operation_sequence(&line), Some(ops));
    }
}

#[test]
fn reparsing_the_quoted_form_of_a_parse_result_is_idempotent() {
    let inputs = [
        ";;; ;; ; open ;; ;",
        r#"set browser "sleep 3; do-something ; echo hi"; open-in-browser"#,
        r#"open; set "arg ; 1"#,
        r#""\t" "\x" q"#,
        "",
        "; \t ;",
    ];
    for input in inputs {
        let first = tokenize_operation_sequence(input).unwrap();
        let line = quote_operation_sequence(&first);
        let second = tokenize_operation_sequence(&line).unwrap();
        assert_eq!(first, second);
    }
}
