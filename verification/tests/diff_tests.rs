use reesync::diff::{
    commit_summary, diff_directories, hash_contents, path_less, skip_entry, wants_commit_info,
    DiffEntry, FileState, WalkedFile,
};
use reesync::ignore_list::IgnoreList;

/// A listing as the walk would produce it: files under a hidden or noise
/// directory, and hidden files, are left out.
fn listing(files: &[(&str, &str)]) -> Vec<WalkedFile> {
    let mut out = Vec::new();
    for (path, content) in files {
        let parts: Vec<&str> = path.split('/').collect();
        let (dirs, name) = parts.split_at(parts.len() - 1);
        if dirs.iter().any(|d| skip_entry(d, true)) || skip_entry(name[0], false) {
            continue;
        }
        out.push(WalkedFile {
            relative_path: path.to_string(),
            content: Some(content.as_bytes().to_vec()),
        });
    }
    out
}

fn diff(project: &[(&str, &str)], template: &[(&str, &str)]) -> Vec<DiffEntry> {
    diff_directories(&listing(project), &listing(template), &IgnoreList::load(None))
}

#[test]
fn test_empty_dirs_no_diff() {
    let diffs = diff(&[], &[]);
    assert!(diffs.is_empty());
}

#[test]
fn test_new_file_in_template() {
    let diffs = diff(&[], &[("new.txt", "hello")]);
    assert_eq!(diffs.len(), 1);
    assert_eq!(diffs[0].relative_path, "new.txt");
    assert_eq!(diffs[0].state, FileState::New);
}

#[test]
fn test_deleted_file_in_project() {
    let diffs = diff(&[("old.txt", "bye")], &[]);
    assert_eq!(diffs.len(), 1);
    assert_eq!(diffs[0].relative_path, "old.txt");
    assert_eq!(diffs[0].state, FileState::Deleted);
}

#[test]
fn test_modified_file() {
    let diffs = diff(&[("file.txt", "original")], &[("file.txt", "changed")]);
    assert_eq!(diffs.len(), 1);
    assert_eq!(diffs[0].relative_path, "file.txt");
    assert_eq!(diffs[0].state, FileState::Modified);
}

#[test]
fn test_identical_file_no_diff() {
    let diffs = diff(&[("file.txt", "same")], &[("file.txt", "same")]);
    assert!(diffs.is_empty());
}

#[test]
fn test_nested_paths() {
    let diffs = diff(
        &[("src/lib/helper.ts", "project version")],
        &[("src/lib/helper.ts", "template version")],
    );
    assert_eq!(diffs.len(), 1);
    assert_eq!(diffs[0].relative_path, "src/lib/helper.ts");
    assert_eq!(diffs[0].state, FileState::Modified);
}

#[test]
fn test_skips_git_dir() {
    let diffs = diff(&[], &[(".git/config", "git config"), ("actual.txt", "real file")]);
    // Should only find actual.txt, not .git/config
    assert_eq!(diffs.len(), 1);
    assert_eq!(diffs[0].relative_path, "actual.txt");
}

#[test]
fn test_multiple_changes() {
    let diffs = diff(
        &[("deleted.txt", "gone"), ("changed.txt", "old"), ("same.txt", "same")],
        &[("new.txt", "new"), ("changed.txt", "new"), ("same.txt", "same")],
    );
    assert_eq!(diffs.len(), 3);

    let states: Vec<FileState> = diffs.iter().map(|d| d.state).collect();
    assert!(states.contains(&FileState::New));
    assert!(states.contains(&FileState::Deleted));
    assert!(states.contains(&FileState::Modified));
}

#[test]
fn diff_is_sorted_by_path() {
    let diffs = diff(
        &[("b.txt", "1"), ("a/z.txt", "1")],
        &[("c.txt", "1"), ("a/y.txt", "1"), ("a.txt", "1")],
    );
    let paths: Vec<&str> = diffs.iter().map(|d| d.relative_path.as_str()).collect();
    // Components compare one by one, so the folder `a` comes before `a.txt`.
    assert_eq!(paths, vec!["a/y.txt", "a/z.txt", "a.txt", "b.txt", "c.txt"]);
    assert_eq!(diffs[2].state, FileState::New);
    assert_eq!(diffs[3].state, FileState::Deleted);
}

#[test]
fn diff_marks_ignored_entries() {
    let ignore = IgnoreList::load(Some("src/css/**\n"));
    let diffs = diff_directories(
        &listing(&[]),
        &listing(&[("src/css/a.css", "x"), ("src/main.ts", "y")]),
        &ignore,
    );
    assert_eq!(diffs.len(), 2);
    assert_eq!(diffs[0].relative_path, "src/css/a.css");
    assert!(diffs[0].ignored);
    assert_eq!(diffs[1].relative_path, "src/main.ts");
    assert!(!diffs[1].ignored);
    assert!(diffs.iter().all(|d| d.commit_info.is_none()));
}

#[test]
fn unreadable_files_compare_as_empty_hashes() {
    let project = vec![WalkedFile { relative_path: "x".to_string(), content: None }];
    let template = vec![WalkedFile { relative_path: "x".to_string(), content: None }];
    let diffs = diff_directories(&project, &template, &IgnoreList::load(None));
    assert!(diffs.is_empty());

    let template = vec![WalkedFile { relative_path: "x".to_string(), content: Some(Vec::new()) }];
    let diffs = diff_directories(&project, &template, &IgnoreList::load(None));
    assert_eq!(diffs.len(), 1);
    assert_eq!(diffs[0].state, FileState::Modified);
}

#[test]
fn hash_is_the_sha256_digest() {
    let h = hash_contents(&Some(b"abc".to_vec()));
    assert_eq!(h.len(), 32);
    assert_ne!(h, b"abc".to_vec());
    assert_eq!(&h[..4], &[0xba, 0x78, 0x16, 0xbf]);
    assert_eq!(h[31], 0xad);
    assert!(hash_contents(&None).is_empty());
}

#[test]
fn walk_skips_hidden_and_noise_entries() {
    assert!(skip_entry(".git", true));
    assert!(skip_entry(".env", false));
    assert!(skip_entry("node_modules", true));
    assert!(skip_entry("dist", true));
    assert!(!skip_entry("dist", false));
    assert!(!skip_entry("src", true));
    assert!(!skip_entry("target.txt", false));
}

#[test]
fn path_order_ranks_the_separator_lowest() {
    assert!(path_less("a/b", "a.txt"));
    assert!(!path_less("a.txt", "a/b"));
    assert!(path_less("a", "ab"));
    assert!(!path_less("a", "a"));
}

#[test]
fn commit_lines() {
    assert_eq!(commit_summary("abc1234 2026-06-15 Fix\n"), Some("abc1234 2026-06-15 Fix".to_string()));
    assert_eq!(commit_summary("  \n"), None);
    let deleted = DiffEntry {
        relative_path: "a".to_string(),
        state: FileState::Deleted,
        commit_info: None,
        ignored: false,
    };
    assert!(!wants_commit_info(&deleted));
    let new = DiffEntry { state: FileState::New, ..deleted };
    assert!(wants_commit_info(&new));
}
