use reesync::ignore_list::IgnoreList;

#[test]
fn missing_file_is_empty() {
    let list = IgnoreList::load(None);
    assert!(!list.is_ignored("package.json"));
}

#[test]
fn exact_and_glob_matching() {
    let list = IgnoreList::load(Some(
        "# comment\npackage.json\nsrc/css/**\nconfig/*.override.ts\n\n",
    ));

    assert!(list.is_ignored("package.json"));
    assert!(list.is_ignored("src/css/style.css"));
    assert!(list.is_ignored("config/supported_languages.override.ts"));
    assert!(!list.is_ignored("src/lib/helper.ts"));
}

#[test]
fn exact_vs_glob_distinction() {
    let list = IgnoreList::load(Some("package.json\nsrc/css/**\n"));

    // package.json is an exact line -> toggleable, no matching_glob.
    assert!(list.has_exact("package.json"));
    assert_eq!(list.matching_glob("package.json"), None);

    // style.css is matched only by a glob -> not exact, reports the glob.
    assert!(!list.has_exact("src/css/style.css"));
    assert_eq!(
        list.matching_glob("src/css/style.css"),
        Some("src/css/**".to_string())
    );
}

#[test]
fn add_and_remove_exact_roundtrip() {
    let mut list = IgnoreList::load(None);

    list.add_exact("wrangler.jsonc");
    assert!(list.is_ignored("wrangler.jsonc"));
    // What would be written reads back the same.
    let written = list.contents();
    let reloaded = IgnoreList::load(written.as_deref());
    assert!(reloaded.is_ignored("wrangler.jsonc"));

    list.remove_exact("wrangler.jsonc");
    assert!(!list.is_ignored("wrangler.jsonc"));
    // Nothing to write once empty: the file is removed.
    assert!(list.contents().is_none());
}

#[test]
fn add_exact_is_a_no_op_when_present() {
    let mut list = IgnoreList::load(Some("a.txt\n"));
    assert!(!list.add_exact("a.txt"));
    assert_eq!(list.lines().len(), 1);
    assert!(list.add_exact("b.txt"));
    assert_eq!(list.lines(), &vec!["a.txt".to_string(), "b.txt".to_string()]);
}

#[test]
fn remove_exact_drops_every_matching_line_and_keeps_the_rest() {
    let mut list = IgnoreList::load(Some("# keep\n a.txt \nb/**\na.txt\n"));
    assert!(list.remove_exact("a.txt"));
    assert_eq!(list.lines(), &vec!["# keep".to_string(), "b/**".to_string()]);
    assert!(!list.remove_exact("a.txt"));
    assert!(!list.has_exact("a.txt"));
}

#[test]
fn contents_keep_comments_and_order() {
    let list = IgnoreList::load(Some("# c\r\nx.txt\n\ny/**"));
    assert_eq!(list.lines().len(), 4);
    let text = list.contents().unwrap();
    assert_eq!(text, "# c\nx.txt\n\ny/**\n");
    let back = IgnoreList::load(Some(&text));
    assert_eq!(back.lines(), list.lines());
}

#[test]
fn blank_lists_write_nothing() {
    let list = IgnoreList::load(Some("\n   \n"));
    assert!(list.contents().is_none());
}

#[test]
fn invalid_patterns_are_reported_and_skipped() {
    let list = IgnoreList::load(Some("a[\nb.txt\n"));
    assert_eq!(list.rejected_patterns(), &vec!["a[".to_string()]);
    assert!(list.is_ignored("b.txt"));
    assert!(!list.is_ignored("a["));
    assert_eq!(list.matching_glob("x"), None);
}

#[test]
fn matching_glob_reports_the_first_match() {
    let list = IgnoreList::load(Some("# x\n*.md\ndocs/**\n"));
    assert_eq!(list.matching_glob("docs/a.md"), Some("*.md".to_string()));
    assert_eq!(list.matching_glob("docs/a.txt"), Some("docs/**".to_string()));
    assert_eq!(list.matching_glob("a.txt"), None);
}

#[test]
fn toggle_group_adds_then_removes() {
    let mut list = IgnoreList::load(Some("a\n"));
    let group = vec!["a".to_string(), "b".to_string()];
    list.toggle_group(&group);
    assert_eq!(list.lines(), &vec!["a".to_string(), "b".to_string()]);
    list.toggle_group(&group);
    assert!(list.lines().is_empty());
}

#[test]
fn a_reported_glob_means_ignored() {
    let list = IgnoreList::load(Some("# c\nsrc/**\n*.md\n"));
    for path in ["src/a.ts", "notes.md", "src/readme.md"] {
        assert!(list.matching_glob(path).is_some());
        assert!(list.is_ignored(path));
    }
    assert_eq!(list.matching_glob("lib/a.ts"), None);
    assert!(!list.is_ignored("lib/a.ts"));
}
