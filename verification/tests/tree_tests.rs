use reesync::diff::{DiffEntry, FileState};
use reesync::tree::{build_tree, DisplayItem, TreeNode};

fn entry(path: &str, state: FileState) -> DiffEntry {
    DiffEntry {
        relative_path: path.to_string(),
        state,
        commit_info: None,
        ignored: false,
    }
}

fn flat(tree: &TreeNode) -> Vec<DisplayItem> {
    let mut items = Vec::new();
    tree.flatten(0, &mut items);
    items
}

#[test]
fn test_build_single_file() {
    let entries = vec![entry("file.txt", FileState::New)];
    let tree = build_tree(&entries);
    assert_eq!(tree.file_count(), 1);
    // New files start unchecked
    assert_eq!(tree.checked_count(), 0);
}

#[test]
fn test_collapsed_state_roundtrip() {
    // Collapse one folder, snapshot, rebuild, restore -> that folder stays
    // collapsed while others stay expanded (the i-toggle rebuild path).
    let entries = vec![
        entry("config/a.ts", FileState::Modified),
        entry("src/lib/b.ts", FileState::New),
    ];
    let mut tree = build_tree(&entries);
    tree.toggle_expand_at("config");

    let mut collapsed = Vec::new();
    tree.collect_collapsed(&mut collapsed);
    assert_eq!(collapsed, vec!["config".to_string()]);

    // Fresh rebuild (all expanded), then restore.
    let mut rebuilt = build_tree(&entries);
    let mut before = Vec::new();
    rebuilt.collect_collapsed(&mut before);
    assert!(before.is_empty(), "fresh build should have nothing collapsed");

    rebuilt.apply_collapsed(&collapsed);
    let mut after = Vec::new();
    rebuilt.collect_collapsed(&mut after);
    assert_eq!(after, vec!["config".to_string()]);
}

#[test]
fn test_file_paths_at_folder() {
    // A folder with two files plus an unrelated root file. Folder `i` should
    // collect exactly the two files under the folder, not the root one.
    let entries = vec![
        entry("config/a.ts", FileState::Modified),
        entry("config/nested/b.ts", FileState::New),
        entry("root.txt", FileState::Modified),
    ];
    let tree = build_tree(&entries);

    let mut under_config = tree.file_paths_at("config");
    under_config.sort();
    assert_eq!(
        under_config,
        vec!["config/a.ts".to_string(), "config/nested/b.ts".to_string()]
    );

    // A path that does not exist yields no files.
    assert!(tree.file_paths_at("does/not/exist").is_empty());
}

#[test]
fn test_build_nested() {
    let entries = vec![
        entry("src/lib/helper.ts", FileState::Modified),
        entry("src/main.ts", FileState::New),
        entry("package.json", FileState::Deleted),
    ];
    let tree = build_tree(&entries);
    assert_eq!(tree.file_count(), 3);
    // Only Modified files are pre-checked
    assert_eq!(tree.checked_count(), 1);
}

#[test]
fn test_toggle_folder() {
    let entries = vec![
        entry("src/a.ts", FileState::Modified),
        entry("src/b.ts", FileState::New),
        entry("readme.md", FileState::Modified),
    ];
    let mut tree = build_tree(&entries);
    // Only Modified files are pre-checked (a.ts, readme.md)
    assert_eq!(tree.checked_count(), 2);

    // Toggle the "src" folder:
    // - a.ts checked, b.ts unchecked → 1 of 2 → new_checked = true → check all
    let src_path = "src".to_string();
    tree.toggle_at(&src_path);
    assert_eq!(tree.checked_count(), 3); // a.ts + b.ts + readme.md

    // Toggle again — all 2 checked → 2 < 2 = false → uncheck all
    tree.toggle_at(&src_path);
    assert_eq!(tree.checked_count(), 1); // only readme.md remains checked
}

#[test]
fn test_deleted_not_checkable() {
    let entries = vec![entry("gone.txt", FileState::Deleted)];
    let tree = build_tree(&entries);
    // Root is a folder; its first child is the deleted file
    assert!(tree.is_folder());
    let checked = tree.checked_count();
    assert_eq!(checked, 0);
}

#[test]
fn test_flatten() {
    let entries = vec![
        entry("src/a.ts", FileState::Modified),
        entry("src/b.ts", FileState::New),
        entry("readme.md", FileState::Deleted),
    ];
    let tree = build_tree(&entries);
    let items = flat(&tree);
    // GLOBAL comes first, followed by src, a.ts, b.ts, and readme.md.
    assert_eq!(items.len(), 5);
    assert_eq!(items[0].label, "GLOBAL");
    assert!(items[1].is_folder);
    assert_eq!(items[1].label, "src");
    assert_eq!(items[1].depth, 1);
    // Then files inside src
    assert_eq!(items[2].label, "a.ts");
    assert_eq!(items[3].label, "b.ts");
    // Then root-level file
    assert_eq!(items[4].label, "readme.md");
}

#[test]
fn test_deeply_nested_paths() {
    // File paths 3+ levels deep must keep the full relative path, not just
    // the file name.
    let entries = vec![
        entry("a/b/c/deep.txt", FileState::Modified),
        entry("a/b/shallow.txt", FileState::New),
        entry("x/y/z/w/deepest.ts", FileState::Modified),
        entry("root.txt", FileState::Modified),
    ];
    let tree = build_tree(&entries);

    // File counts — only Modified files are pre-checked
    assert_eq!(tree.file_count(), 4);
    assert_eq!(tree.checked_count(), 3);

    // Flatten and verify structure
    let items = flat(&tree);

    // GLOBAL comes first, followed by the tree contents.
    assert_eq!(items.len(), 12);

    // Verify folder nesting: a/b/c/deep.txt
    assert_eq!(items[1].label, "a");
    assert!(items[1].is_folder);
    assert_eq!(items[1].depth, 1);

    assert_eq!(items[2].label, "b");
    assert!(items[2].is_folder);
    assert_eq!(items[2].depth, 2);

    assert_eq!(items[3].label, "c");
    assert!(items[3].is_folder);
    assert_eq!(items[3].depth, 3);

    assert_eq!(items[4].label, "deep.txt");
    assert!(!items[4].is_folder);
    assert_eq!(items[4].depth, 4);

    assert_eq!(items[5].label, "shallow.txt");
    assert!(!items[5].is_folder);
    assert_eq!(items[5].depth, 3);

    // 4 levels deep: x/y/z/w/deepest.ts
    assert_eq!(items[6].label, "x");
    assert!(items[6].is_folder);
    assert_eq!(items[6].depth, 1);

    assert_eq!(items[7].label, "y");
    assert!(items[7].is_folder);
    assert_eq!(items[7].depth, 2);

    assert_eq!(items[8].label, "z");
    assert!(items[8].is_folder);
    assert_eq!(items[8].depth, 3);

    assert_eq!(items[9].label, "w");
    assert!(items[9].is_folder);
    assert_eq!(items[9].depth, 4);

    assert_eq!(items[10].label, "deepest.ts");
    assert!(!items[10].is_folder);
    assert_eq!(items[10].depth, 5);

    // Root-level file
    assert_eq!(items[11].label, "root.txt");
    assert!(!items[11].is_folder);
    assert_eq!(items[11].depth, 1);

    // CRITICAL: Verify that collect_checked_paths returns the FULL relative paths,
    // not just the file names.
    // Only Modified files are pre-checked (deep.txt, deepest.ts, root.txt).
    // New file (shallow.txt) starts unchecked.
    let mut paths = Vec::new();
    tree.collect_checked_paths(&mut paths);
    assert_eq!(paths.len(), 3);
    assert!(paths.contains(&"a/b/c/deep.txt".to_string()));
    assert!(paths.contains(&"x/y/z/w/deepest.ts".to_string()));
    assert!(paths.contains(&"root.txt".to_string()));
}

#[test]
fn test_sort_order() {
    let entries = vec![
        entry("z_file.txt", FileState::Modified),
        entry("a_folder/file.txt", FileState::Modified),
    ];
    let tree = build_tree(&entries);
    let items = flat(&tree);
    // GLOBAL is first, then a_folder (folder), then z_file.txt (file).
    assert_eq!(items[0].label, "GLOBAL");
    assert!(items[1].is_folder, "Expected items[1] to be a folder, got: {}", items[1].label);
    assert!(!items[2].is_folder, "Expected items[2] to be a file, got: {}", items[2].label);
}

#[test]
fn folder_rows_count_all_their_files() {
    let entries = vec![
        entry("src/gone.ts", FileState::Deleted),
        entry("src/a.ts", FileState::Modified),
    ];
    let tree = build_tree(&entries);
    let items = flat(&tree);
    // GLOBAL, src, a.ts, gone.ts
    assert_eq!(items[1].label, "src");
    assert_eq!(items[1].total_count, 2);
    assert_eq!(items[1].selectable_count, 1);
    assert_eq!(items[1].checked_count, 1);
    assert_eq!(items[0].total_count, 2);
    assert_eq!(reesync::render::row_text_of(&items[1]), "   [x] 📂 [-] src");
}

#[test]
fn paths_are_found_as_paths() {
    let entries = vec![entry("src/a.ts", FileState::New), entry("src/b.ts", FileState::Modified)];
    let mut tree = build_tree(&entries);
    // A trailing separator names the same folder.
    assert_eq!(tree.file_paths_at("src/"), vec!["src/a.ts".to_string(), "src/b.ts".to_string()]);
    assert!(tree.toggle_expand_at("src/"));
    let mut collapsed = Vec::new();
    tree.collect_collapsed(&mut collapsed);
    assert_eq!(collapsed, vec!["src".to_string()]);
    assert!(tree.toggle_at("./src/./a.ts") == false);
    assert!(tree.toggle_at("src/./a.ts"));
    assert_eq!(tree.checked_count(), 2);
    let mut rebuilt = build_tree(&entries);
    rebuilt.apply_collapsed(&["src/".to_string()]);
    let mut after = Vec::new();
    rebuilt.collect_collapsed(&mut after);
    assert_eq!(after, vec!["src".to_string()]);
}

#[test]
fn set_checked_twice_changes_nothing_more() {
    let entries = vec![entry("a/x.ts", FileState::New), entry("a/gone.ts", FileState::Deleted)];
    let mut tree = build_tree(&entries);
    tree.set_checked(true);
    let mut once = Vec::new();
    tree.collect_checked_paths(&mut once);
    tree.set_checked(true);
    let mut twice = Vec::new();
    tree.collect_checked_paths(&mut twice);
    assert_eq!(once, vec!["a/x.ts".to_string()]);
    assert_eq!(once, twice);
}

#[test]
fn built_folders_carry_their_paths() {
    let entries = vec![entry("a/b/c.txt", FileState::New), entry("a/d.txt", FileState::New)];
    let tree = build_tree(&entries);
    let items = flat(&tree);
    let folders: Vec<(String, String)> = items
        .iter()
        .filter(|i| i.is_folder)
        .map(|i| (i.path.clone(), i.label.clone()))
        .collect();
    assert_eq!(
        folders,
        vec![
            ("/".to_string(), "GLOBAL".to_string()),
            ("a".to_string(), "a".to_string()),
            ("a/b".to_string(), "b".to_string()),
        ]
    );
    assert_eq!(tree.file_paths_at("a"), vec!["a/b/c.txt".to_string(), "a/d.txt".to_string()]);
}

#[test]
fn cloned_trees_are_equal_and_independent() {
    let entries = vec![entry("a/x.ts", FileState::Modified), entry("b.ts", FileState::New)];
    let tree = build_tree(&entries);
    let mut copy = tree.clone();
    let a: Vec<String> = flat(&tree).iter().map(|i| i.label.clone()).collect();
    let b: Vec<String> = flat(&copy).iter().map(|i| i.label.clone()).collect();
    assert_eq!(a, b);
    assert_eq!(copy.checked_count(), tree.checked_count());
    copy.set_checked(false);
    assert_eq!(copy.checked_count(), 0);
    assert_eq!(tree.checked_count(), 1);
}
