use science::diff::{changes, is_identical, positional, render, Change};

#[test]
fn identical_text_is_all_context() {
    let changes = changes("a\nb\n", "a\nb\n");
    assert_eq!(changes.len(), 2);
    assert!(changes.iter().all(Change::is_same));
}

#[test]
fn a_replaced_line_becomes_one_removal_and_one_addition() {
    let changes = changes("a\nb\nc\n", "a\nB\nc\n");
    assert_eq!(
        changes,
        vec![
            Change::Same { expected_line: 1, actual_line: 1, text: "a" },
            Change::Removed { expected_line: 2, text: "b" },
            Change::Added { actual_line: 2, text: "B" },
            Change::Same { expected_line: 3, actual_line: 3, text: "c" },
        ]
    );
}

#[test]
fn an_inserted_line_is_only_an_addition() {
    let changes = changes("a\nc\n", "a\nb\nc\n");
    assert_eq!(
        changes,
        vec![
            Change::Same { expected_line: 1, actual_line: 1, text: "a" },
            Change::Added { actual_line: 2, text: "b" },
            Change::Same { expected_line: 2, actual_line: 3, text: "c" },
        ]
    );
}

#[test]
fn a_deleted_line_is_only_a_removal() {
    let changes = changes("a\nb\nc\n", "a\nc\n");
    assert_eq!(
        changes,
        vec![
            Change::Same { expected_line: 1, actual_line: 1, text: "a" },
            Change::Removed { expected_line: 2, text: "b" },
            Change::Same { expected_line: 3, actual_line: 2, text: "c" },
        ]
    );
}

#[test]
fn an_empty_expectation_is_all_additions() {
    let changes = changes("", "a\nb\n");
    assert_eq!(
        changes,
        vec![
            Change::Added { actual_line: 1, text: "a" },
            Change::Added { actual_line: 2, text: "b" },
        ]
    );
}

#[test]
fn the_rendering_has_a_header_a_marker_and_a_line_number() {
    let rendered = render("a\nb\n", "a\nB\n");
    assert!(rendered.contains("--- expected"), "{rendered}");
    assert!(rendered.contains("+++ actual"), "{rendered}");
    assert!(rendered.lines().any(|l| l.contains("- b")), "{rendered}");
    assert!(rendered.lines().any(|l| l.contains("+ B")), "{rendered}");
    assert!(rendered.lines().any(|l| l.contains('2')), "{rendered}");
}

#[test]
fn the_gutter_widens_with_the_line_count() {
    let expected: String = (1..=12).map(|n| format!("line {n}\n")).collect();
    let mut actual = expected.clone();
    actual.push_str("line 13\n");
    let rendered = render(&expected, &actual);
    assert!(rendered.lines().any(|l| l.contains("13 + line 13")), "{rendered}");
}

#[test]
fn the_positional_fallback_keeps_the_line_count() {
    let left: Vec<&str> = vec!["a", "b", "c"];
    let right: Vec<&str> = vec!["a", "x"];
    let changes = positional(&left, &right);
    assert_eq!(changes.len(), 4);
    assert!(changes[0].is_same());
}

#[test]
fn past_the_limit_the_comparison_is_positional() {
    // Three lines against two, one shared, past the line limit: a kept
    // line, a removal and an addition, and a removal.
    let mut left = String::new();
    let mut right = String::new();
    for n in 0..2001 {
        left.push_str(&format!("{n}\n"));
        right.push_str(&format!("{n}\n"));
    }
    left.push_str("a\nb\nc\n");
    right.push_str("a\nx\n");
    let changes = changes(&left, &right);
    let tail = &changes[2001..];
    assert_eq!(tail.len(), 4);
    assert!(tail[0].is_same());
}

#[test]
fn an_exact_rendering_pads_the_gutter() {
    let rendered = render("a\nb\n", "a\nB\n");
    assert_eq!(
        rendered,
        "--- expected (the .stderr file on disk)\n\
         +++ actual (what compile() just returned)\n\
         1 1   a\n\
         2   - b\n\
         \x20 2 + B\n"
    );
}

#[test]
fn two_empty_sides_say_so() {
    let rendered = render("", "");
    assert!(rendered.ends_with("(both sides are empty)\n"), "{rendered}");
    assert!(changes("", "").is_empty());
}

#[test]
fn crlf_lines_compare_equal_to_lf_lines() {
    let changes = changes("a\r\nb\r\n", "a\nb\n");
    assert!(changes.iter().all(Change::is_same));
}

#[test]
fn a_tie_removes_before_it_adds() {
    let changes = changes("x\n", "y\n");
    assert_eq!(
        changes,
        vec![
            Change::Removed { expected_line: 1, text: "x" },
            Change::Added { actual_line: 1, text: "y" },
        ]
    );
}

#[test]
fn the_longest_common_subsequence_is_kept() {
    // The common subsequence `b c d` is longer than `a`, so `a` goes.
    let changes = changes("a\nb\nc\nd\n", "b\nc\nd\na\n");
    let kept = changes.iter().filter(|c| c.is_same()).count();
    assert_eq!(kept, 3);
}

#[test]
fn identical_means_equal_text() {
    assert!(is_identical("a\n", "a\n"));
    assert!(!is_identical("a\n", "a"));
}
