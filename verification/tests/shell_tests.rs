use json_cdb::{join, split};

#[test]
fn split_plain_words() {
    assert_eq!(split("a b c d").unwrap(), ["a", "b", "c", "d"]);
}

#[test]
fn split_double_quoted() {
    assert_eq!(split("a \"b b\" a").unwrap(), ["a", "b b", "a"]);
}

#[test]
fn split_escaped_double_quotes() {
    assert_eq!(split("a \"\\\"b\\\" c\" d").unwrap(), ["a", "\"b\" c", "d"]);
}

#[test]
fn split_single_quotes_inside_double() {
    assert_eq!(split("a \"'b' c\" d").unwrap(), ["a", "'b' c", "d"]);
}

#[test]
fn split_escaped_space() {
    assert_eq!(split("a b\\ c d").unwrap(), ["a", "b c", "d"]);
}

#[test]
fn split_unterminated_double_quote() {
    assert!(split("a \"b c d e").is_err());
}

#[test]
fn split_unterminated_single_quote() {
    assert!(split("a 'b c d e").is_err());
}

#[test]
fn split_unterminated_after_word() {
    assert!(split("one '\"\"\"").is_err());
}

#[test]
fn split_trailing_whitespace() {
    assert_eq!(split("a b c d ").unwrap(), ["a", "b", "c", "d"]);
}

#[test]
fn split_empty_input() {
    assert_eq!(split("").unwrap(), Vec::<String>::new());
}

#[test]
fn split_empty_quotes_make_empty_token() {
    assert_eq!(split("a '' b").unwrap(), ["a", "", "b"]);
}

#[test]
fn join_escapes_specials() {
    let words = vec!["foo '\"' bar".to_string()];
    assert_eq!(join(&words), "foo\\ \\'\\\"\\'\\ bar");
}

#[test]
fn join_empty_token() {
    let words = vec!["".to_string()];
    assert_eq!(join(&words), "''");
}

#[test]
fn join_newline_is_quoted() {
    let words = vec!["a\nb".to_string()];
    assert_eq!(join(&words), "a'\n'b");
}

#[test]
fn split_join_round_trip_cases() {
    let cases: Vec<Vec<String>> = vec![
        vec![],
        vec!["".to_string()],
        vec!["cc".to_string(), "-c".to_string(), "a.c".to_string()],
        vec!["name=\\\"me\\\"".to_string()],
        vec!["name=\"me\"".to_string()],
        vec!["a b".to_string(), "".to_string(), "c\td".to_string()],
        vec!["new\nline".to_string(), "qu'ote".to_string(), "ba\\ck".to_string()],
        vec!["$HOME".to_string(), "`cmd`".to_string(), "*glob*".to_string()],
        vec!["nul\u{0}byte".to_string()],
        vec!["unicode \u{e9}\u{4e2d}\u{1f600}".to_string()],
    ];
    for tokens in cases {
        let line = join(&tokens);
        assert_eq!(split(line.as_str()).unwrap(), tokens, "round trip through {:?}", line);
    }
}

#[test]
fn split_agrees_with_shellwords_crate() {
    let inputs = [
        "a b c d",
        "a \"b b\" a",
        "a \"\\\"b\\\" c\" d",
        "a b\\ c d",
        "cc -c -D name\\=\\\\\\\"me\\\\\\\" ./file_a.c -o ./file_a.o",
        "\"double \\$dollar \\`tick\\`\"",
        "",
        "   ",
    ];
    for input in inputs {
        assert_eq!(split(input).unwrap(), shellwords::split(input).unwrap(), "on {:?}", input);
    }
}

#[test]
fn split_errors_agree_with_shellwords_crate() {
    let inputs = ["a \"b", "a 'b", "one '\"\"\"", "\"trailing backslash\\", "it's 'a wrap'"];
    for input in inputs {
        assert!(split(input).is_err(), "on {:?}", input);
        assert!(shellwords::split(input).is_err(), "on {:?}", input);
    }
}

#[test]
fn join_agrees_with_shellwords_crate() {
    let cases: Vec<Vec<String>> = vec![
        vec!["cc".to_string(), "-c".to_string(), "a.c".to_string()],
        vec!["name=\\\"me\\\"".to_string()],
        vec!["a b".to_string(), "".to_string()],
        vec!["new\nline".to_string()],
        vec!["$HOME".to_string(), "`cmd`".to_string()],
    ];
    for tokens in cases {
        let refs: Vec<&str> = tokens.iter().map(|t| t.as_str()).collect();
        assert_eq!(join(&tokens), shellwords::join(&refs), "on {:?}", tokens);
    }
}
