use opseq::tokenize_operation_sequence;

#[test]
fn t_tokenize_operation_sequence_works_for_all_cpp_inputs() {
    assert_eq!(
        tokenize_operation_sequence("").unwrap(),
        Vec::<Vec<String>>::new()
    );
    assert_eq!(
        tokenize_operation_sequence("open").unwrap(),
        vec![vec!["open"]]
    );
    assert_eq!(
        tokenize_operation_sequence("open-all-unread-in-browser-and-mark-read").unwrap(),
        vec![vec!["open-all-unread-in-browser-and-mark-read"]]
    );
    assert_eq!(
        tokenize_operation_sequence("; ; ; ;").unwrap(),
        Vec::<Vec<String>>::new()
    );
    assert_eq!(
        tokenize_operation_sequence("open ; next").unwrap(),
        vec![vec!["open"], vec!["next"]]
    );
    assert_eq!(
        tokenize_operation_sequence("open ; next ; prev").unwrap(),
        vec![vec!["open"], vec!["next"], vec!["prev"]]
    );
    assert_eq!(
        tokenize_operation_sequence("open ; next ; prev ; quit").unwrap(),
        vec![vec!["open"], vec!["next"], vec!["prev"], vec!["quit"]]
    );
    assert_eq!(
        tokenize_operation_sequence(r#"set "arg 1""#).unwrap(),
        vec![vec!["set", "arg 1"]]
    );
    assert_eq!(
        tokenize_operation_sequence(r#"set "arg 1" ; set "arg 2" "arg 3""#).unwrap(),
        vec![vec!["set", "arg 1"], vec!["set", "arg 2", "arg 3"]]
    );
    assert_eq!(
        tokenize_operation_sequence(r#"set browser "firefox"; open-in-browser"#).unwrap(),
        vec![vec!["set", "browser", "firefox"], vec!["open-in-browser"]]
    );
    assert_eq!(
        tokenize_operation_sequence("set browser firefox; open-in-browser").unwrap(),
        vec![vec!["set", "browser", "firefox"], vec!["open-in-browser"]]
    );
    assert_eq!(
        tokenize_operation_sequence("open-in-browser; quit").unwrap(),
        vec![vec!["open-in-browser"], vec!["quit"]]
    );
    assert_eq!(
        tokenize_operation_sequence(r#"open; set browser "firefox --private-window"; quit"#)
            .unwrap(),
        vec![
            vec!["open"],
            vec!["set", "browser", "firefox --private-window"],
            vec!["quit"]
        ]
    );
    assert_eq!(
        tokenize_operation_sequence(r#"open ;set browser "firefox --private-window" ;quit"#)
            .unwrap(),
        vec![
            vec!["open"],
            vec!["set", "browser", "firefox --private-window"],
            vec!["quit"]
        ]
    );
    assert_eq!(
        tokenize_operation_sequence(r#"open;set browser "firefox --private-window";quit"#)
            .unwrap(),
        vec![
            vec!["open"],
            vec!["set", "browser", "firefox --private-window"],
            vec!["quit"]
        ]
    );
    assert_eq!(
        tokenize_operation_sequence("; ;; ; open",).unwrap(),
        vec![vec!["open"]]
    );
    assert_eq!(
        tokenize_operation_sequence(";;; ;; ; open",).unwrap(),
        vec![vec!["open"]]
    );
    assert_eq!(
        tokenize_operation_sequence(";;; ;; ; open ;",).unwrap(),
        vec![vec!["open"]]
    );
    assert_eq!(
        tokenize_operation_sequence(";;; ;; ; open ;; ;",).unwrap(),
        vec![vec!["open"]]
    );
    assert_eq!(
        tokenize_operation_sequence(";;; ;; ; open ; ;;;;",).unwrap(),
        vec![vec!["open"]]
    );
    assert_eq!(
        tokenize_operation_sequence(";;; open ; ;;;;",).unwrap(),
        vec![vec!["open"]]
    );
    assert_eq!(
        tokenize_operation_sequence("; open ;; ;; ;",).unwrap(),
        vec![vec!["open"]]
    );
    assert_eq!(
        tokenize_operation_sequence("open ; ;;; ;;",).unwrap(),
        vec![vec!["open"]]
    );
    assert_eq!(
        tokenize_operation_sequence(
            r#"set browser "sleep 3; do-something ; echo hi"; open-in-browser"#
        )
        .unwrap(),
        vec![
            vec!["set", "browser", "sleep 3; do-something ; echo hi"],
            vec!["open-in-browser"]
        ]
    );
}

#[test]
fn t_tokenize_operation_sequence_ignores_escaped_sequences_outside_double_quotes() {
    assert_eq!(
        tokenize_operation_sequence(r#"\t"#).unwrap(),
        vec![vec![r#"\t"#]]
    );
    assert_eq!(
        tokenize_operation_sequence(r#"\r"#).unwrap(),
        vec![vec![r#"\r"#]]
    );
    assert_eq!(
        tokenize_operation_sequence(r#"\n"#).unwrap(),
        vec![vec![r#"\n"#]]
    );
    assert_eq!(
        tokenize_operation_sequence(r#"\v"#).unwrap(),
        vec![vec![r#"\v"#]]
    );
    assert_eq!(
        tokenize_operation_sequence(r#"\""#).unwrap(),
        vec![vec![r#"\""#]]
    );
    assert_eq!(
        tokenize_operation_sequence(r#"\\"#).unwrap(),
        vec![vec![r#"\\"#]]
    );
}

#[test]
fn t_tokenize_operation_sequence_expands_escaped_sequences_inside_double_quotes() {
    assert_eq!(
        tokenize_operation_sequence(r#""\t""#).unwrap(),
        vec![vec!["\t"]]
    );
    assert_eq!(
        tokenize_operation_sequence(r#""\r""#).unwrap(),
        vec![vec!["\r"]]
    );
    assert_eq!(
        tokenize_operation_sequence(r#""\n""#).unwrap(),
        vec![vec!["\n"]]
    );
    assert_eq!(
        tokenize_operation_sequence(r#""\"""#).unwrap(),
        vec![vec!["\""]]
    );
    assert_eq!(
        tokenize_operation_sequence(r#""\\""#).unwrap(),
        vec![vec!["\\"]]
    );
}

#[test]
fn t_tokenize_operation_sequence_passes_through_unsupported_escaped_chars_inside_double_quotes() {
    assert_eq!(
        tokenize_operation_sequence(r#""\1""#).unwrap(),
        vec![vec!["1"]]
    );
    assert_eq!(
        tokenize_operation_sequence(r#""\W""#).unwrap(),
        vec![vec!["W"]]
    );
    assert_eq!(
        tokenize_operation_sequence(r#""\b""#).unwrap(),
        vec![vec!["b"]]
    );
    assert_eq!(
        tokenize_operation_sequence(r#""\d""#).unwrap(),
        vec![vec!["d"]]
    );
    assert_eq!(
        tokenize_operation_sequence(r#""\x""#).unwrap(),
        vec![vec!["x"]]
    );
}

#[test]
fn t_tokenize_operation_sequence_implicitly_closes_double_quotes_at_end_of_input() {
    assert_eq!(
        tokenize_operation_sequence(r#"set "arg 1"#).unwrap(),
        vec![vec!["set", "arg 1"]]
    );
}

#[test]
fn separators_only_inputs_yield_the_empty_sequence() {
    assert_eq!(
        tokenize_operation_sequence(" ").unwrap(),
        Vec::<Vec<String>>::new()
    );
    assert_eq!(
        tokenize_operation_sequence("   \t  ").unwrap(),
        Vec::<Vec<String>>::new()
    );
    assert_eq!(
        tokenize_operation_sequence(";").unwrap(),
        Vec::<Vec<String>>::new()
    );
    assert_eq!(
        tokenize_operation_sequence(";;;;").unwrap(),
        Vec::<Vec<String>>::new()
    );
    assert_eq!(
        tokenize_operation_sequence("\t; ;\t;  ;; \t").unwrap(),
        Vec::<Vec<String>>::new()
    );
}

#[test]
fn empty_quoted_token_is_a_valid_empty_argument() {
    assert_eq!(
        tokenize_operation_sequence(r#"set """#).unwrap(),
        vec![vec!["set".to_string(), String::new()]]
    );
}

#[test]
fn single_character_bare_tokens_are_accepted() {
    assert_eq!(tokenize_operation_sequence("q").unwrap(), vec![vec!["q"]]);
    assert_eq!(
        tokenize_operation_sequence("a b ; c").unwrap(),
        vec![vec!["a", "b"], vec!["c"]]
    );
}

#[test]
fn surrounding_horizontal_whitespace_is_discarded() {
    assert_eq!(
        tokenize_operation_sequence("  open  ").unwrap(),
        vec![vec!["open"]]
    );
    assert_eq!(
        tokenize_operation_sequence("\t open").unwrap(),
        vec![vec!["open"]]
    );
    assert_eq!(
        tokenize_operation_sequence("\t;; open ;\t").unwrap(),
        vec![vec!["open"]]
    );
    assert_eq!(
        tokenize_operation_sequence("open \t").unwrap(),
        vec![vec!["open", "\t"]]
    );
}

#[test]
fn tabs_inside_bare_tokens_are_ordinary_characters() {
    assert_eq!(
        tokenize_operation_sequence("a\tb c").unwrap(),
        vec![vec!["a\tb", "c"]]
    );
}

#[test]
fn leftover_input_after_a_token_fails_the_parse() {
    assert_eq!(tokenize_operation_sequence(r#""a"b"#), None);
    assert_eq!(tokenize_operation_sequence(r#"""x"#), None);
}

#[test]
fn dangling_backslash_inside_quotes_fails_the_parse() {
    assert_eq!(tokenize_operation_sequence("\"ab\\"), None);
}

#[test]
fn unterminated_quote_mid_sequence_consumes_the_rest() {
    assert_eq!(
        tokenize_operation_sequence(r#"open; set "arg ; 1"#).unwrap(),
        vec![vec!["open"], vec!["set", "arg ; 1"]]
    );
}
