use reesync::diff::{DiffEntry, FileState};
use reesync::ignore_list::IgnoreList;
use reesync::session::Browser;
use reesync::tree::build_tree;

fn entry(path: &str, state: FileState) -> DiffEntry {
    DiffEntry {
        relative_path: path.to_string(),
        state,
        commit_info: None,
        ignored: false,
    }
}

fn browser() -> Browser {
    Browser::new(build_tree(&[
        entry("src/a.ts", FileState::Modified),
        entry("src/b.ts", FileState::New),
        entry("readme.md", FileState::Modified),
    ]))
}

fn labels(b: &Browser) -> Vec<String> {
    b.items().iter().map(|i| i.label.clone()).collect()
}

#[test]
fn browser_starts_on_the_global_row() {
    let b = browser();
    assert_eq!(b.selected(), Some(0));
    assert_eq!(labels(&b), vec!["GLOBAL", "src", "a.ts", "b.ts", "readme.md"]);
    assert_eq!(b.total_files(), 3);
    assert_eq!(b.status(), None);
    assert_eq!(b.checked_paths(), vec!["src/a.ts".to_string(), "readme.md".to_string()]);
}

#[test]
fn cursor_stays_in_range() {
    let mut b = browser();
    b.move_up();
    assert_eq!(b.selected(), Some(0));
    for _ in 0..10 {
        b.move_down();
    }
    assert_eq!(b.selected(), Some(4));
    b.move_up();
    assert_eq!(b.selected(), Some(3));
}

#[test]
fn space_on_global_toggles_everything() {
    let mut b = browser();
    b.toggle_selected();
    // Not every selectable file was checked, so all become checked.
    assert_eq!(b.checked_paths().len(), 3);
    b.toggle_selected();
    assert!(b.checked_paths().is_empty());
}

#[test]
fn expand_toggle_hides_and_shows_children() {
    let mut b = browser();
    b.move_down();
    b.toggle_expand_selected();
    assert_eq!(labels(&b), vec!["GLOBAL", "src", "readme.md"]);
    assert!(!b.items()[1].is_expanded);
    b.toggle_expand_selected();
    assert_eq!(labels(&b).len(), 5);
    // The GLOBAL row does not collapse.
    let mut b = browser();
    b.toggle_expand_selected();
    assert_eq!(labels(&b).len(), 5);
}

#[test]
fn ignore_on_a_file_adds_an_exact_line() {
    let mut b = browser();
    let mut ignore = IgnoreList::load(None);
    for _ in 0..4 {
        b.move_down();
    }
    assert!(b.ignore_selected(&mut ignore));
    assert_eq!(ignore.lines(), &vec!["readme.md".to_string()]);
    assert!(b.ignore_selected(&mut ignore));
    assert!(ignore.lines().is_empty());
}

#[test]
fn ignore_on_a_glob_matched_file_shows_a_notice() {
    let mut b = browser();
    let mut ignore = IgnoreList::load(Some("*.md\n"));
    for _ in 0..4 {
        b.move_down();
    }
    assert!(!b.ignore_selected(&mut ignore));
    assert_eq!(
        b.status(),
        Some("ignored by pattern '*.md' — edit .reesyncignore to change".to_string())
    );
    assert_eq!(ignore.lines(), &vec!["*.md".to_string()]);
    // Any other key clears the notice.
    b.toggle_selected();
    assert_eq!(b.status(), None);
}

#[test]
fn ignore_on_a_folder_toggles_its_files_as_a_group() {
    let mut b = browser();
    let mut ignore = IgnoreList::load(Some("src/b.ts\n"));
    b.move_down();
    assert!(b.ignore_selected(&mut ignore));
    assert_eq!(ignore.lines(), &vec!["src/b.ts".to_string(), "src/a.ts".to_string()]);
    assert!(b.ignore_selected(&mut ignore));
    assert!(ignore.lines().is_empty());

    let mut ignore = IgnoreList::load(Some("src/**\n"));
    assert!(!b.ignore_selected(&mut ignore));
    assert_eq!(
        b.status(),
        Some("all files here are ignored by a pattern — edit .reesyncignore to change".to_string())
    );
}

#[test]
fn ignore_on_global_does_nothing() {
    let mut b = browser();
    let mut ignore = IgnoreList::load(None);
    assert!(!b.ignore_selected(&mut ignore));
    assert!(ignore.lines().is_empty());
    assert_eq!(b.status(), None);
}

#[test]
fn rebuild_keeps_collapsed_folders_and_clamps_the_cursor() {
    let mut b = browser();
    b.move_down();
    b.toggle_expand_selected();
    for _ in 0..5 {
        b.move_down();
    }
    assert_eq!(b.selected(), Some(2));
    b.rebuild(build_tree(&[entry("src/a.ts", FileState::Modified)]));
    assert_eq!(labels(&b), vec!["GLOBAL", "src"]);
    assert_eq!(b.selected(), Some(1));
    assert_eq!(b.total_files(), 1);
}
