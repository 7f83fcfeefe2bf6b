use reesync::text::{
    char_is_space, join_key_of, path_eq, path_key_of, split_components, split_lines, text_eq,
    text_less, to_pattern,
    trim_text,
};

#[test]
fn components_of_paths() {
    assert_eq!(split_components("a/b/c.txt"), vec!["a", "b", "c.txt"]);
    assert_eq!(split_components("a//b/"), vec!["a", "b"]);
    assert!(split_components("").is_empty());
    let cs = split_components("x/y/z");
    assert_eq!(join_key_of(&cs, 2), "x/y");
    assert_eq!(join_key_of(&cs, 3), "x/y/z");
}

#[test]
fn trimming_and_lines() {
    assert_eq!(trim_text("  a b \t"), "a b");
    assert_eq!(trim_text("   "), "");
    assert!(char_is_space('\t'));
    assert!(!char_is_space('x'));
    assert_eq!(split_lines("a\r\nb\n\nc"), vec!["a", "b", "", "c"]);
    assert_eq!(split_lines("a\n"), vec!["a"]);
    assert!(split_lines("").is_empty());
}

#[test]
fn patterns_use_forward_slashes() {
    assert_eq!(to_pattern("src\\css\\a.css"), "src/css/a.css");
    assert_eq!(to_pattern("a/b"), "a/b");
}

#[test]
fn text_comparisons() {
    assert!(text_eq("abc", "abc"));
    assert!(!text_eq("abc", "abd"));
    assert!(text_less("abc", "abd"));
    assert!(text_less("ab", "abc"));
    assert!(!text_less("b", "a"));
}

#[test]
fn paths_compare_by_components() {
    assert_eq!(path_key_of("a/./b/"), vec!["a", "b"]);
    assert_eq!(path_key_of("./a"), vec![".", "a"]);
    assert_eq!(path_key_of("/a//b"), vec!["/", "a", "b"]);
    assert!(path_key_of("").is_empty());
    assert!(path_eq("src/", "src"));
    assert!(path_eq("a/./b", "a//b"));
    assert!(!path_eq("./a", "a"));
    assert!(!path_eq("/a", "a"));
    assert!(!path_eq("a/b", "a/c"));
    assert!(path_eq("/", "//"));
    let key = path_key_of("/x/y");
    assert_eq!(join_key_of(&key, 3), "/x/y");
    assert_eq!(join_key_of(&key, 1), "/");
}
