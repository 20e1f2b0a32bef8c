use science::normalize::normalize;

#[test]
fn crlf_becomes_lf() {
    assert_eq!(normalize("a\r\nb\r\n"), "a\nb\n");
}

#[test]
fn a_lone_cr_becomes_lf() {
    assert_eq!(normalize("a\rb\r"), "a\nb\n");
}

#[test]
fn a_missing_final_newline_is_added() {
    assert_eq!(normalize("a\nb"), "a\nb\n");
}

#[test]
fn trailing_blank_lines_collapse_to_one_newline() {
    assert_eq!(normalize("a\n\n\n"), "a\n");
}

#[test]
fn empty_stays_empty() {
    assert_eq!(normalize(""), "");
    assert_eq!(normalize("\n\n"), "");
}

#[test]
fn interior_blank_lines_are_preserved() {
    assert_eq!(normalize("a\n\nb\n"), "a\n\nb\n");
}

#[test]
fn leading_and_interior_whitespace_is_preserved() {
    assert_eq!(normalize("  |  ^^^ here\n"), "  |  ^^^ here\n");
}

#[test]
fn normalizing_twice_is_normalizing_once() {
    for text in ["a\r\n\r\nb\r\r\n\n", "", "\r", "x", "\n\r\n"] {
        let once = normalize(text);
        assert_eq!(normalize(&once), once);
    }
}
