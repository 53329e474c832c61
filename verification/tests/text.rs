use axum_app_create::plugin::name_map::NameMap;
use axum_app_create::plugin::text::{
    components, concat_text, integer_text, join_path, join_texts, less_text, relative_path, same_text,
    starts_with_path, text_after_last_slash, trim_end_text,
};

#[test]
fn texts_compare_and_join() {
    assert!(same_text("abc", "abc"));
    assert!(!same_text("abc", "abd"));
    assert!(less_text("a", "b"));
    assert!(less_text("ab", "abc"));
    assert!(!less_text("b", "a"));
    assert!(!less_text("a", "a"));
    assert!(less_text("B", "a"));
    assert_eq!(concat_text("foo", "bar"), "foobar");
    let items = vec!["a".to_string(), "b".to_string(), "c".to_string()];
    assert_eq!(join_texts(&items, " -> "), "a -> b -> c");
    assert_eq!(join_texts(&vec![], ", "), "");
}

#[test]
fn path_components_follow_std() {
    assert_eq!(components("/tmp//a/./b/"), vec!["/", "tmp", "a", "b"]);
    assert_eq!(components("./x"), vec![".", "x"]);
    assert_eq!(components("a/b"), vec!["a", "b"]);
    assert_eq!(components("."), vec!["."]);
    assert!(components("").is_empty());
    assert!(starts_with_path("/a/b/c", "/a/b"));
    assert!(!starts_with_path("/a/bc", "/a/b"));
    assert!(starts_with_path("/a/b", "/"));
}

#[test]
fn paths_join_like_pathbuf() {
    assert_eq!(join_path("/a", "b"), "/a/b");
    assert_eq!(join_path("/a/", "b"), "/a/b");
    assert_eq!(join_path("/a", "/b"), "/b");
    assert_eq!(join_path("", "b"), "b");
    assert_eq!(relative_path("/a/b/c.txt", "/a"), Some("b/c.txt".to_string()));
    assert_eq!(relative_path("/a", "/a"), Some("".to_string()));
    assert_eq!(relative_path("/x/c.txt", "/a"), None);
}

#[test]
fn suffixes_and_segments() {
    assert_eq!(text_after_last_slash("a/b/c"), "c");
    assert_eq!(text_after_last_slash("abc"), "abc");
    assert_eq!(text_after_last_slash("abc/"), "");
    assert_eq!(trim_end_text("x.git.git", ".git"), "x");
    assert_eq!(trim_end_text("x", ".git"), "x");
    assert_eq!(integer_text(0), "0");
    assert_eq!(integer_text(-17), "-17");
    assert_eq!(integer_text(2147483647), "2147483647");
    assert_eq!(integer_text(-2147483648), "-2147483648");
}

#[test]
fn name_maps_keep_first_insertion_order() {
    let mut m: NameMap<u32> = NameMap::new();
    m.insert("b".to_string(), 1);
    m.insert("a".to_string(), 2);
    m.insert("b".to_string(), 3);
    assert_eq!(m.len(), 2);
    assert_eq!(m.key_at(0), "b");
    assert_eq!(*m.value_at(0), 3);
    assert_eq!(m.key_at(1), "a");
    assert_eq!(m.get("b"), Some(&3));
    assert_eq!(m.get("z"), None);
    assert!(m.contains_key("a"));
    assert!(!m.contains_key("z"));
    assert_eq!(m.position("a"), Some(1));
    let c = m.clone();
    assert_eq!(c, m);
}
