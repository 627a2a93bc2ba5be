use pathrank::text::{last_index_of, replace_underscores, str_le, str_starts_with};

fn s(x: &str) -> String {
    String::from(x)
}

#[test]
fn lexicographic_order_on_strings() {
    assert!(str_le("", "a"));
    assert!(str_le("a", "a"));
    assert!(str_le("a", "b"));
    assert!(!str_le("b", "a"));
    assert!(str_le("ab", "b"));
    assert!(str_le("a", "ab"));
    assert!(!str_le("ab", "a"));
    assert!(str_le("lib.rs", "main.rs"));
}

#[test]
fn prefix_test() {
    assert!(str_starts_with("main.rs", "ma"));
    assert!(str_starts_with("main.rs", ""));
    assert!(!str_starts_with("ma", "main"));
    assert!(!str_starts_with("main.rs", "mx"));
}

#[test]
fn last_occurrence() {
    assert_eq!(last_index_of("a/b/c", '/'), Some(3));
    assert_eq!(last_index_of("abc", '/'), None);
    assert_eq!(last_index_of("/", '/'), Some(0));
    assert_eq!(last_index_of("x.tar.gz", '.'), Some(5));
}

#[test]
fn underscores_read_as_blanks() {
    assert_eq!(replace_underscores("trip_plan_v2"), s("trip plan v2"));
    assert_eq!(replace_underscores("plain"), s("plain"));
    assert_eq!(replace_underscores(""), s(""));
}
