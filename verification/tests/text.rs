use science::diagnostics::list;
use science::exhaustive::dedup;

#[test]
fn names_read_as_a_sentence() {
    let names = |v: &[&str]| v.iter().map(|s| s.to_string()).collect::<Vec<String>>();
    assert_eq!(list(&names(&[])), "");
    assert_eq!(list(&names(&["a"])), "`a`");
    assert_eq!(list(&names(&["a", "b"])), "`a` and `b`");
    assert_eq!(list(&names(&["a", "b", "c"])), "`a`, `b` and `c`");
}

#[test]
fn dedup_keeps_the_first_of_each_in_order() {
    let items: Vec<String> = ["b", "a", "b", "c", "a"].iter().map(|s| s.to_string()).collect();
    assert_eq!(dedup(items), vec!["b".to_string(), "a".to_string(), "c".to_string()]);
    assert!(dedup(Vec::new()).is_empty());
}
