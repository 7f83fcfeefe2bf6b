//! The texts the browser draws: rows, header and status line.

use vstd::prelude::*;

use crate::diff::FileState;
use crate::text::{path_eq, same_path};
use vstd::string::{StrSliceExecFns, StringExecFns};
use crate::tree::{item_views, DisplayItem};
use crate::tree_model::{root_path, SItem};

verus! {

/// Number of checked file rows (folder rows are not counted).
pub open spec fn checked_rows(rows: Seq<SItem>) -> nat
    decreases rows.len(),
{
    if rows.len() == 0 {
        0
    } else {
        checked_rows(rows.drop_last()) + if !rows.last().is_folder && rows.last().checked {
            1nat
        } else {
            0nat
        }
    }
}

/// Count checked files across all display items.
pub fn count_checked(items: &[DisplayItem]) -> (res: usize)
    ensures
        res == checked_rows(item_views(items@)),
{
    let ghost rows = item_views(items@);
    let mut n: usize = 0;
    let mut i: usize = 0;
    while i < items.len()
        invariant
            rows == item_views(items@),
            i <= items.len(),
            n == checked_rows(rows.take(i as int)),
            n <= i,
        decreases items.len() - i,
    {
        proof {
            let t = rows.take(i as int + 1);
            assert(t.drop_last() =~= rows.take(i as int));
            assert(t.last() == rows[i as int]);
        }
        if !items[i].is_folder && items[i].checked {
            n += 1;
        }
        i += 1;
    }
    proof {
        assert(rows.take(i as int) =~= rows);
    }
    n
}

/// The checkbox of a row: folders show `[x]` when all their selectable
/// files are checked, `[~]` when some are, `[ ]` when none; deleted files
/// show `[─]`, as they cannot be checked.
pub open spec fn checkbox(r: SItem) -> Seq<char> {
    if r.is_folder {
        if r.checked_count == 0 {
            "[ ]"@
        } else if r.checked_count < r.selectable_count {
            "[~]"@
        } else {
            "[x]"@
        }
    } else if r.state == FileState::Deleted {
        "[─]"@
    } else if r.checked {
        "[x]"@
    } else {
        "[ ]"@
    }
}

/// Whether a row is the GLOBAL row.
pub open spec fn is_global_row(r: SItem) -> bool {
    same_path(r.path, root_path())
}

/// The icon of a row.
pub open spec fn icon(r: SItem) -> Seq<char> {
    if r.is_folder {
        if is_global_row(r) {
            "🌐"@
        } else if r.is_expanded {
            "📂"@
        } else {
            "📁"@
        }
    } else {
        "📄"@
    }
}

/// The expand marker of a folder row (none for files and the GLOBAL row).
pub open spec fn expand_marker(r: SItem) -> Seq<char> {
    if r.is_folder && !is_global_row(r) {
        if r.is_expanded {
            "[-] "@
        } else {
            "[+] "@
        }
    } else {
        ""@
    }
}

/// The marker after a row's label: deleted, else ignored, else nothing.
pub open spec fn state_suffix(r: SItem) -> Seq<char> {
    if r.state == FileState::Deleted {
        "  (deleted)"@
    } else if r.ignored {
        "  (ignored)"@
    } else {
        ""@
    }
}

/// The commit line of a file row, after two spaces.
pub open spec fn commit_suffix(r: SItem) -> Seq<char> {
    match r.commit_info {
        Some(info) => if !r.is_folder {
            "  "@ + info
        } else {
            ""@
        },
        None => ""@,
    }
}

/// Two spaces per level of depth.
pub open spec fn indent(depth: nat) -> Seq<char>
    decreases depth,
{
    if depth == 0 {
        Seq::empty()
    } else {
        indent((depth - 1) as nat) + "  "@
    }
}

/// The text of a row.
pub open spec fn row_text(r: SItem) -> Seq<char> {
    indent(r.depth as nat) + " "@ + checkbox(r) + " "@ + icon(r) + " "@ + expand_marker(r)
        + r.label + commit_suffix(r) + state_suffix(r)
}

proof fn lemma_indent_len(d: nat)
    ensures
        indent(d).len() == 2 * d,
    decreases d,
{
    reveal_strlit("  ");
    if d > 0 {
        lemma_indent_len((d - 1) as nat);
    }
}

/// The checkbox of a row, as drawn after its indentation (two characters a
/// level) and one space:
/// - a file that is not deleted shows `[x]` exactly when it is checked,
///   whatever its state or ignored flag, and `[ ]` otherwise;
/// - a deleted file shows `[─]`;
/// - a folder shows `[ ]` when none of its files is checked, `[x]` when all
///   its selectable files are, and `[~]` in between.
pub proof fn law_row_checkbox(r: SItem)
    requires
        r.depth >= 0,
    ensures
        ({
            let at = 2 * r.depth + 1;
            let cb = row_text(r).subrange(at, at + 3);
            &&& !r.is_folder && r.state != FileState::Deleted ==> (cb == "[x]"@ <==> r.checked)
            &&& !r.is_folder && r.state != FileState::Deleted ==> (cb == "[ ]"@ <==> !r.checked)
            &&& !r.is_folder && r.state == FileState::Deleted ==> cb == "[─]"@
            &&& r.is_folder ==> (cb == "[ ]"@ <==> r.checked_count == 0)
            &&& r.is_folder ==> (cb == "[x]"@ <==> (r.checked_count != 0 && r.checked_count
                >= r.selectable_count))
            &&& r.is_folder ==> (cb == "[~]"@ <==> (r.checked_count != 0 && r.checked_count
                < r.selectable_count))
        }),
{
    reveal_strlit(" ");
    reveal_strlit("[x]");
    reveal_strlit("[ ]");
    reveal_strlit("[~]");
    reveal_strlit("[─]");
    lemma_indent_len(r.depth as nat);
    let at = 2 * r.depth + 1;
    let c = checkbox(r);
    assert(c.len() == 3);
    let t = row_text(r);
    let rest = " "@ + icon(r) + " "@ + expand_marker(r) + r.label + commit_suffix(r) + state_suffix(r);
    assert(t =~= indent(r.depth as nat) + " "@ + c + rest);
    assert(t.subrange(at, at + 3) =~= c);
    assert("[x]"@ != "[ ]"@) by {
        assert("[x]"@[1] != "[ ]"@[1]);
    }
    assert("[x]"@ != "[~]"@) by {
        assert("[x]"@[1] != "[~]"@[1]);
    }
    assert("[ ]"@ != "[~]"@) by {
        assert("[ ]"@[1] != "[~]"@[1]);
    }
}

proof fn lemma_indent_spaces(d: nat)
    ensures
        indent(d) == Seq::new(2 * d, |i: int| ' '),
    decreases d,
{
    reveal_strlit("  ");
    if d > 0 {
        lemma_indent_spaces((d - 1) as nat);
        assert(indent(d) =~= Seq::new(2 * d, |i: int| ' '));
    } else {
        assert(indent(d) =~= Seq::new(2 * d, |i: int| ' '));
    }
}

/// How a row is drawn: two spaces per level of depth, a space, the
/// checkbox, a space, the icon, a space, the expand marker of a folder
/// other than GLOBAL, the label (the GLOBAL row is the folder whose path
/// is, as a path, the root `/`), then for a file its commit line after two
/// spaces, and last `(deleted)` for a deleted file or else `(ignored)` for
/// an ignored one, after two spaces.
pub proof fn law_row_layout(r: SItem)
    requires
        r.depth >= 0,
    ensures
        row_text(r) == Seq::new((2 * r.depth) as nat, |i: int| ' ') + " "@ + (if r.is_folder {
            if r.checked_count == 0 {
                "[ ]"@
            } else if r.checked_count < r.selectable_count {
                "[~]"@
            } else {
                "[x]"@
            }
        } else if r.state == FileState::Deleted {
            "[─]"@
        } else if r.checked {
            "[x]"@
        } else {
            "[ ]"@
        }) + " "@ + (if !r.is_folder {
            "📄"@
        } else if same_path(r.path, seq!['/']) {
            "🌐"@
        } else if r.is_expanded {
            "📂"@
        } else {
            "📁"@
        }) + " "@ + (if r.is_folder && !same_path(r.path, seq!['/']) {
            if r.is_expanded {
                "[-] "@
            } else {
                "[+] "@
            }
        } else {
            Seq::empty()
        }) + r.label + (match r.commit_info {
            Some(info) => if r.is_folder {
                Seq::empty()
            } else {
                "  "@ + info
            },
            None => Seq::empty(),
        }) + (if r.state == FileState::Deleted {
            "  (deleted)"@
        } else if r.ignored {
            "  (ignored)"@
        } else {
            Seq::empty()
        }),
{
    lemma_indent_spaces(r.depth as nat);
    reveal_strlit("");
    assert(root_path() =~= seq!['/']);
    let t = row_text(r);
    assert(t =~= Seq::new((2 * r.depth) as nat, |i: int| ' ') + " "@ + checkbox(r) + " "@ + icon(r)
        + " "@ + expand_marker(r) + r.label + commit_suffix(r) + state_suffix(r));
}

/// Whether a row is drawn dimmed: deleted and ignored rows are.
pub open spec fn dimmed(r: SItem) -> bool {
    r.state == FileState::Deleted || r.ignored
}

/// Whether a row is drawn dimmed (deleted or ignored).
pub fn row_dimmed(item: &DisplayItem) -> (res: bool)
    ensures
        res == dimmed(item@),
{
    item.state == FileState::Deleted || item.ignored
}

fn is_global_item(item: &DisplayItem) -> (res: bool)
    ensures
        res == is_global_row(item@),
{
    proof {
        reveal_strlit("/");
        assert("/"@ =~= root_path());
    }
    path_eq(item.path.as_str(), "/")
}

/// The text of a row of the tree list.
pub fn row_text_of(item: &DisplayItem) -> (res: String)
    ensures
        res@ == row_text(item@),
        !item.is_folder && item.state != FileState::Deleted ==> (res@.subrange(
            2 * item.depth + 1,
            2 * item.depth + 4,
        ) == "[x]"@ <==> item.checked),
{
    proof {
        law_row_checkbox(item@);
    }
    let r = item;
    let mut s = String::new();
    let mut d: usize = 0;
    while d < item.depth
        invariant
            d <= item.depth,
            s@ == indent(d as nat),
        decreases item.depth - d,
    {
        s.append("  ");
        d += 1;
    }
    s.append(" ");
    let checkbox_text = if r.is_folder {
        if r.checked_count == 0 {
            "[ ]"
        } else if r.checked_count < r.selectable_count {
            "[~]"
        } else {
            "[x]"
        }
    } else if r.state == FileState::Deleted {
        "[─]"
    } else if r.checked {
        "[x]"
    } else {
        "[ ]"
    };
    s.append(checkbox_text);
    s.append(" ");
    let global = is_global_item(item);
    let icon_text = if r.is_folder {
        if global {
            "🌐"
        } else if r.is_expanded {
            "📂"
        } else {
            "📁"
        }
    } else {
        "📄"
    };
    s.append(icon_text);
    s.append(" ");
    let expand_text = if r.is_folder && !global {
        if r.is_expanded {
            "[-] "
        } else {
            "[+] "
        }
    } else {
        ""
    };
    s.append(expand_text);
    s.append(r.label.as_str());
    match &r.commit_info {
        Some(info) => {
            if !r.is_folder {
                s.append("  ");
                s.append(info.as_str());
            } else {
                s.append("");
            }
        },
        None => {
            s.append("");
        },
    }
    let suffix = if r.state == FileState::Deleted {
        "  (deleted)"
    } else if r.ignored {
        "  (ignored)"
    } else {
        ""
    };
    s.append(suffix);
    proof {
        assert(s@ =~= row_text(item@));
    }
    s
}

// ------------------------------------------------------------------------
// Numbers, header and status line
// ------------------------------------------------------------------------

/// The decimal digit for `d` (below ten).
pub open spec fn digit(d: nat) -> char {
    if d == 0 {
        '0'
    } else if d == 1 {
        '1'
    } else if d == 2 {
        '2'
    } else if d == 3 {
        '3'
    } else if d == 4 {
        '4'
    } else if d == 5 {
        '5'
    } else if d == 6 {
        '6'
    } else if d == 7 {
        '7'
    } else if d == 8 {
        '8'
    } else {
        '9'
    }
}

/// The decimal notation of `n`, without leading zeros.
pub open spec fn decimal(n: nat) -> Seq<char>
    decreases n,
{
    if n < 10 {
        seq![digit(n)]
    } else {
        decimal(n / 10) + seq![digit(n % 10)]
    }
}

proof fn lemma_digit_value(d: nat)
    requires
        d < 10,
    ensures
        is_digit(digit(d)),
        ((digit(d) as u32) - ('0' as u32)) == d,
{
}

/// The decimal notation of a number is a non-empty string of digits that
/// reads back as the number, and does not start with `0` unless it is `0`.
pub proof fn law_decimal_reads_back(n: nat)
    ensures
        decimal(n).len() > 0,
        all_digits(decimal(n)),
        digits_value(decimal(n)) == n,
        decimal(n).len() > 1 ==> decimal(n)[0] != '0',
        n < 10 <==> decimal(n).len() == 1,
    decreases n,
{
    if n < 10 {
        lemma_digit_value(n);
        let d = decimal(n);
        assert(d == seq![digit(n)]);
        assert(d.drop_last() =~= Seq::<char>::empty());
        assert(digits_value(d.drop_last()) == 0);
        assert(d.last() == digit(n));
        assert(digits_value(d) == digits_value(d.drop_last()) * 10 + ((d.last() as u32) - ('0' as u32)) as nat);
    } else {
        law_decimal_reads_back(n / 10);
        lemma_digit_value(n % 10);
        let a = decimal(n / 10);
        let d = decimal(n);
        assert(d == a + seq![digit(n % 10)]);
        assert(d.drop_last() =~= a);
        assert(d.last() == digit(n % 10));
        assert(digits_value(d) == digits_value(a) * 10 + (n % 10));
        assert(n == (n / 10) * 10 + n % 10);
        assert forall|i: int| 0 <= i < d.len() implies is_digit(#[trigger] d[i]) by {
            if i < a.len() {
                assert(d[i] == a[i]);
            }
        }
        assert(d[0] == a[0]);
        if a.len() == 1 {
            assert(n / 10 < 10);
            assert(a[0] == digit(n / 10));
        }
    }
}

/// Reading a number written out in decimal gives the number back.
pub proof fn law_parse_decimal(n: u32)
    ensures
        parsed_u32(decimal(n as nat)) == Some(n),
{
    law_decimal_reads_back(n as nat);
    let d = decimal(n as nat);
    assert(unsigned_part(d) == d) by {
        if d.len() > 0 && d[0] == '+' {
            assert(is_digit(d[0]));
        }
    }
}

fn digit_text(d: usize) -> (res: &'static str)
    requires
        d < 10,
    ensures
        res@ == seq![digit(d as nat)],
{
    proof {
        reveal_strlit("0");
        reveal_strlit("1");
        reveal_strlit("2");
        reveal_strlit("3");
        reveal_strlit("4");
        reveal_strlit("5");
        reveal_strlit("6");
        reveal_strlit("7");
        reveal_strlit("8");
        reveal_strlit("9");
    }
    let r = if d == 0 {
        "0"
    } else if d == 1 {
        "1"
    } else if d == 2 {
        "2"
    } else if d == 3 {
        "3"
    } else if d == 4 {
        "4"
    } else if d == 5 {
        "5"
    } else if d == 6 {
        "6"
    } else if d == 7 {
        "7"
    } else if d == 8 {
        "8"
    } else {
        "9"
    };
    assert(r@ =~= seq![digit(d as nat)]);
    r
}

/// Append the decimal notation of `n` to `s`.
pub fn push_decimal(s: &mut String, n: usize)
    ensures
        final(s)@ == old(s)@ + decimal(n as nat),
    decreases n,
{
    if n < 10 {
        s.append(digit_text(n));
    } else {
        push_decimal(s, n / 10);
        s.append(digit_text(n % 10));
        assert(s@ =~= old(s)@ + decimal(n as nat));
    }
}

/// The header line: the template and how many of the files are checked.
pub open spec fn header(template_dir: Seq<char>, checked: nat, total: nat) -> Seq<char> {
    " reesync — Template: "@ + template_dir + "  |  "@ + decimal(checked) + "/"@ + decimal(total)
        + " files selected"@
}

/// The header names the template and reads `checked/total files
/// selected`, both numbers in decimal.
pub proof fn law_header_layout(template_dir: Seq<char>, checked: nat, total: nat)
    ensures
        header(template_dir, checked, total) == " reesync — Template: "@ + template_dir + "  |  "@
            + decimal(checked) + "/"@ + decimal(total) + " files selected"@,
        digits_value(decimal(checked)) == checked,
        digits_value(decimal(total)) == total,
{
    law_decimal_reads_back(checked);
    law_decimal_reads_back(total);
}

/// The header line of the browser.
pub fn header_text(template_dir: &str, checked: usize, total: usize) -> (res: String)
    ensures
        res@ == header(template_dir@, checked as nat, total as nat),
{
    let mut s = " reesync — Template: ".to_owned();
    s.append(template_dir);
    s.append("  |  ");
    push_decimal(&mut s, checked);
    s.append("/");
    push_decimal(&mut s, total);
    s.append(" files selected");
    assert(s@ =~= header(template_dir@, checked as nat, total as nat));
    s
}

/// The key hints that follow the selection count.
pub open spec fn key_hints() -> Seq<char> {
    "  │  ↑↓ nav  space toggle  i ignore  → expand  ← collapse  enter sync  q quit"@
}

/// The status line: a notice when there is one, else the selection count
/// and the key hints.
pub open spec fn status_line(checked: nat, notice: Option<Seq<char>>) -> Seq<char> {
    match notice {
        Some(msg) => " "@ + msg,
        None => " "@ + (if checked == 0 {
            "No files selected"@
        } else {
            decimal(checked) + " files selected"@
        }) + key_hints(),
    }
}

/// The status line shows the notice when there is one; otherwise
/// `No files selected` or `N files selected` and the key hints.
pub proof fn law_status_layout(checked: nat, notice: Option<Seq<char>>)
    ensures
        status_line(checked, notice) == match notice {
            Some(msg) => " "@ + msg,
            None => " "@ + (if checked == 0 {
                "No files selected"@
            } else {
                decimal(checked) + " files selected"@
            }) + "  │  ↑↓ nav  space toggle  i ignore  → expand  ← collapse  enter sync  q quit"@,
        },
{
}

/// The status line of the browser.
pub fn status_text(checked: usize, notice: Option<&str>) -> (res: String)
    ensures
        res@ == status_line(
            checked as nat,
            match notice {
                Some(m) => Some(m@),
                None => None,
            },
        ),
{
    let mut s = " ".to_owned();
    match notice {
        Some(msg) => {
            s.append(msg);
        },
        None => {
            if checked == 0 {
                s.append("No files selected");
            } else {
                push_decimal(&mut s, checked);
                s.append(" files selected");
            }
            s.append("  │  ↑↓ nav  space toggle  i ignore  → expand  ← collapse  enter sync  q quit");
        },
    }
    assert(s@ =~= status_line(
        checked as nat,
        match notice {
            Some(m) => Some(m@),
            None => None,
        },
    ));
    s
}

// ------------------------------------------------------------------------
// The version number
// ------------------------------------------------------------------------

/// The pieces of `t` between dots, empty ones included (as `str::split`).
pub open spec fn dot_pieces(t: Seq<char>) -> Seq<Seq<char>>
    decreases t.len(),
{
    if t.len() == 0 {
        seq![Seq::empty()]
    } else {
        let r = dot_pieces(t.drop_last());
        if t.last() == '.' {
            r.push(Seq::empty())
        } else {
            r.update(r.len() - 1, r.last().push(t.last()))
        }
    }
}

proof fn lemma_dot_pieces_len(t: Seq<char>)
    ensures
        dot_pieces(t).len() >= 1,
    decreases t.len(),
{
    if t.len() > 0 {
        lemma_dot_pieces_len(t.drop_last());
    }
}

pub open spec fn is_digit(c: char) -> bool {
    '0' <= c && c <= '9'
}

/// The value of a string of decimal digits.
pub open spec fn digits_value(d: Seq<char>) -> nat
    decreases d.len(),
{
    if d.len() == 0 {
        0
    } else {
        digits_value(d.drop_last()) * 10 + ((d.last() as u32) - ('0' as u32)) as nat
    }
}

/// What follows an optional leading `+`.
pub open spec fn unsigned_part(s: Seq<char>) -> Seq<char> {
    if s.len() > 0 && s[0] == '+' {
        s.drop_first()
    } else {
        s
    }
}

/// Every character is a decimal digit.
pub open spec fn all_digits(d: Seq<char>) -> bool {
    forall|i: int| 0 <= i < d.len() ==> is_digit(#[trigger] d[i])
}

/// `str::parse::<u32>`: an optional `+`, then at least one digit, of a value
/// that fits.
pub open spec fn parsed_u32(s: Seq<char>) -> Option<u32> {
    let d = unsigned_part(s);
    if d.len() == 0 || !all_digits(d) {
        None
    } else if digits_value(d) > u32::MAX {
        None
    } else {
        Some(digits_value(d) as u32)
    }
}

/// Zero-padded to two characters.
pub open spec fn pad2(s: Seq<char>) -> Seq<char> {
    if s.len() < 2 {
        seq!['0'] + s
    } else {
        s
    }
}

/// The version as printed: `YY.MM.PATCH`, the month with two digits (a
/// missing part reads as `0`, a month that does not parse as 0).
pub open spec fn version_text(v: Seq<char>) -> Seq<char> {
    let ps = dot_pieces(v);
    let month: nat = if ps.len() > 1 {
        match parsed_u32(ps[1]) {
            Some(m) => m as nat,
            None => 0,
        }
    } else {
        0
    };
    let patch = if ps.len() > 2 {
        ps[2]
    } else {
        seq!['0']
    };
    ps[0] + seq!['.'] + pad2(decimal(month)) + seq!['.'] + patch
}

proof fn lemma_digits_value_prefix(d: Seq<char>, i: int)
    requires
        0 <= i <= d.len(),
        all_digits(d),
    ensures
        digits_value(d.take(i)) <= digits_value(d),
    decreases d.len() - i,
{
    if i < d.len() {
        lemma_digits_value_prefix(d, i + 1);
        let t = d.take(i + 1);
        assert(t.drop_last() =~= d.take(i));
    } else {
        assert(d.take(i) =~= d);
    }
}

/// `str::parse::<u32>`.
pub fn parse_u32(s: &str) -> (res: Option<u32>)
    ensures
        res == parsed_u32(s@),
{
    let n = s.unicode_len();
    let start: usize = if n > 0 && s.get_char(0) == '+' {
        1
    } else {
        0
    };
    let ghost d = unsigned_part(s@);
    assert(d =~= s@.skip(start as int));
    if start >= n {
        return None;
    }
    let mut value: u64 = 0;
    let mut i: usize = start;
    while i < n
        invariant
            n == s@.len(),
            start <= i <= n,
            d == s@.skip(start as int),
            d == unsigned_part(s@),
            forall|j: int| 0 <= j < i - start ==> is_digit(#[trigger] d[j]),
            value == digits_value(d.take(i - start)),
            value <= u32::MAX,
        decreases n - i,
    {
        let c = s.get_char(i);
        if !('0' <= c && c <= '9') {
            assert(d[i - start] == c);
            assert(!is_digit(d[i - start]));
            return None;
        }
        let digit = (c as u32 - '0' as u32) as u64;
        proof {
            let t = d.take(i - start + 1);
            assert(t.drop_last() =~= d.take(i - start));
            assert(t.last() == c);
        }
        value = value * 10 + digit;
        i += 1;
        if value > 4294967295u64 {
            proof {
                if all_digits(d) {
                    lemma_digits_value_prefix(d, i - start);
                }
            }
            return None;
        }
    }
    assert(d.take(i - start) =~= d);
    Some(value as u32)
}

/// The pieces of `t` between dots.
pub fn split_dots(t: &str) -> (res: Vec<String>)
    ensures
        crate::text::texts_of(res@) == dot_pieces(t@),
{
    let n = t.unicode_len();
    let mut out: Vec<String> = Vec::new();
    let mut start: usize = 0;
    let mut i: usize = 0;
    assert(t@.take(0) =~= Seq::<char>::empty());
    while i < n
        invariant
            n == t@.len(),
            start <= i <= n,
            forall|j: int| start <= j < i ==> t@[j] != '.',
            dot_pieces(t@.take(i as int)) == crate::text::texts_of(out@).push(
                t@.subrange(start as int, i as int),
            ),
        decreases n - i,
    {
        let c = t.get_char(i);
        proof {
            let u = t@.take(i as int + 1);
            assert(u.drop_last() =~= t@.take(i as int));
            assert(u.last() == c);
        }
        if c == '.' {
            let piece = t.substring_char(start, i).to_owned();
            proof {
                crate::text::lemma_texts_of_push(out@, piece);
                assert(t@.subrange(i as int + 1, i as int + 1) =~= Seq::<char>::empty());
            }
            out.push(piece);
            start = i + 1;
        } else {
            proof {
                assert(t@.subrange(start as int, i as int + 1) =~= t@.subrange(start as int, i as int).push(c));
            }
        }
        i += 1;
    }
    let piece = t.substring_char(start, n).to_owned();
    proof {
        crate::text::lemma_texts_of_push(out@, piece);
        assert(t@.take(n as int) =~= t@);
    }
    out.push(piece);
    out
}

/// The version number as printed by `--version`.
pub fn display_version(version: &str) -> (res: String)
    ensures
        res@ == version_text(version@),
{
    let parts = split_dots(version);
    proof {
        lemma_dot_pieces_len(version@);
    }
    let mut s = parts[0].clone();
    s.append(".");
    let month: u32 = if parts.len() > 1 {
        match parse_u32(parts[1].as_str()) {
            Some(m) => m,
            None => 0,
        }
    } else {
        0
    };
    let mut digits = String::new();
    push_decimal(&mut digits, month as usize);
    if digits.unicode_len() < 2 {
        s.append("0");
    }
    s.append(digits.as_str());
    s.append(".");
    if parts.len() > 2 {
        s.append(parts[2].as_str());
    } else {
        s.append("0");
    }
    proof {
        reveal_strlit(".");
        reveal_strlit("0");
        assert(s@ =~= version_text(version@));
    }
    s
}

} // verus!
