use reesync::diff::FileState;
use reesync::render::{
    count_checked, display_version, header_text, parse_u32, push_decimal, row_dimmed,
    row_text_of, split_dots, status_text,
};
use reesync::tree::DisplayItem;

fn file_row(label: &str, depth: usize, state: FileState, checked: bool) -> DisplayItem {
    DisplayItem {
        path: label.to_string(),
        depth,
        label: label.to_string(),
        is_folder: false,
        is_expanded: false,
        state,
        checked,
        ignored: false,
        total_count: 0,
        selectable_count: 0,
        checked_count: 0,
        commit_info: None,
    }
}

fn folder_row(path: &str, label: &str, expanded: bool, total: usize, checked: usize) -> DisplayItem {
    DisplayItem {
        path: path.to_string(),
        depth: 0,
        label: label.to_string(),
        is_folder: true,
        is_expanded: expanded,
        state: FileState::Modified,
        checked: checked > 0,
        ignored: false,
        total_count: total,
        selectable_count: total,
        checked_count: checked,
        commit_info: None,
    }
}

#[test]
fn row_texts() {
    let r = file_row("a.ts", 1, FileState::New, false);
    assert_eq!(row_text_of(&r), "   [ ] 📄 a.ts");
    let mut r = file_row("b.ts", 2, FileState::Modified, true);
    r.commit_info = Some("abc1234 2026-06-15 Fix".to_string());
    assert_eq!(row_text_of(&r), "     [x] 📄 b.ts  abc1234 2026-06-15 Fix");
    let r = file_row("gone.txt", 0, FileState::Deleted, false);
    assert_eq!(row_text_of(&r), " [─] 📄 gone.txt  (deleted)");
    assert!(row_dimmed(&r));
    let mut r = file_row("x", 0, FileState::Modified, false);
    r.ignored = true;
    assert_eq!(row_text_of(&r), " [ ] 📄 x  (ignored)");
    assert!(row_dimmed(&r));
    assert!(!row_dimmed(&file_row("y", 0, FileState::New, false)));
}

#[test]
fn folder_row_texts() {
    assert_eq!(row_text_of(&folder_row("/", "GLOBAL", false, 3, 1)), " [~] 🌐 GLOBAL");
    assert_eq!(row_text_of(&folder_row("src", "src", true, 2, 2)), " [x] 📂 [-] src");
    assert_eq!(row_text_of(&folder_row("src", "src", false, 2, 0)), " [ ] 📁 [+] src");
}

#[test]
fn header_and_status() {
    assert_eq!(
        header_text("../tpl", 2, 10),
        " reesync — Template: ../tpl  |  2/10 files selected"
    );
    assert_eq!(
        status_text(0, None),
        " No files selected  │  ↑↓ nav  space toggle  i ignore  → expand  ← collapse  enter sync  q quit"
    );
    assert_eq!(
        status_text(12, None),
        " 12 files selected  │  ↑↓ nav  space toggle  i ignore  → expand  ← collapse  enter sync  q quit"
    );
    assert_eq!(status_text(3, Some("hello")), " hello");
}

#[test]
fn counts_checked_file_rows_only() {
    let rows = vec![
        folder_row("/", "GLOBAL", false, 2, 2),
        file_row("a", 1, FileState::Modified, true),
        file_row("b", 1, FileState::New, false),
        file_row("c", 1, FileState::Modified, true),
    ];
    assert_eq!(count_checked(&rows), 2);
}

#[test]
fn decimal_numbers() {
    let mut s = String::from("n=");
    push_decimal(&mut s, 0);
    assert_eq!(s, "n=0");
    let mut s = String::new();
    push_decimal(&mut s, 4096);
    assert_eq!(s, "4096");
}

#[test]
fn version_numbers() {
    assert_eq!(display_version("26.3.1"), "26.03.1");
    assert_eq!(display_version("26.11.0"), "26.11.0");
    assert_eq!(display_version("1"), "1.00.0");
    assert_eq!(display_version("1.x.2"), "1.00.2");
    assert_eq!(parse_u32("+7"), Some(7));
    assert_eq!(parse_u32("4294967295"), Some(u32::MAX));
    assert_eq!(parse_u32("4294967296"), None);
    assert_eq!(parse_u32(""), None);
    assert_eq!(parse_u32("+"), None);
    assert_eq!(parse_u32("1a"), None);
    assert_eq!(split_dots("a..b"), vec!["a", "", "b"]);
}
