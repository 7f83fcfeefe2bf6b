//! Comparison of a project listing with a template listing.
//!
//! Walking the two directories and reading the files is left to the caller,
//! which hands over each walk as a list of `WalkedFile`s; the comparison, by
//! path and SHA-256 content hash, is done here.

use vstd::prelude::*;

use sha2::Digest;

use crate::ignore_list::{ignored_by, IgnoreList};
use crate::text::{text_eq, trim_text, trimmed};

verus! {

/// The state of a file relative to the template.
#[derive(Debug, Clone, Copy, PartialEq, Eq, Structural)]
pub enum FileState {
    /// File exists in template but not in project.
    New,
    /// File exists in both but content differs.
    Modified,
    /// File exists in project but not in template.
    Deleted,
}

/// A single file difference between project and template.
#[derive(Debug, Clone)]
pub struct DiffEntry {
    /// Relative path from the project/template root, `/`-separated.
    pub relative_path: String,
    /// Whether this file is new, modified, or deleted.
    pub state: FileState,
    /// Last commit info from the template repo (hash, date, subject).
    pub commit_info: Option<String>,
    /// Whether the path matches a `.reesyncignore` pattern.
    pub ignored: bool,
}

/// A file found by walking a directory.
#[derive(Debug, Clone)]
pub struct WalkedFile {
    /// Path relative to the walked root, `/`-separated.
    pub relative_path: String,
    /// The file's bytes; `None` when they could not be read.
    pub content: Option<Vec<u8>>,
}

// ------------------------------------------------------------------------
// Hashing
// ------------------------------------------------------------------------

/// The SHA-256 digest of some bytes, as the `sha2` crate computes it.
pub uninterp spec fn sha256(data: Seq<u8>) -> Seq<u8>;

/// `sha2::Sha256::digest`: the 32-byte SHA-256 digest of `data`.
#[verifier::external_body]
fn sha256_digest(data: &[u8]) -> (res: Vec<u8>)
    ensures
        res@ == sha256(data@),
        res@.len() == 32,
{
    sha2::Sha256::digest(data).to_vec()
}

/// The hash a file is compared by: the digest of its bytes, or nothing when
/// they could not be read.
pub open spec fn content_hash(content: Option<Vec<u8>>) -> Seq<u8> {
    match content {
        Some(bytes) => sha256(bytes@),
        None => Seq::empty(),
    }
}

/// Compute the SHA256 hash of a file's contents (empty when unreadable).
pub fn hash_contents(content: &Option<Vec<u8>>) -> (res: Vec<u8>)
    ensures
        res@ == content_hash(*content),
{
    match content {
        Some(bytes) => sha256_digest(bytes.as_slice()),
        None => Vec::new(),
    }
}

fn bytes_eq(a: &Vec<u8>, b: &Vec<u8>) -> (res: bool)
    ensures
        res == (a@ == b@),
{
    if a.len() != b.len() {
        return false;
    }
    let mut i: usize = 0;
    while i < a.len()
        invariant
            a.len() == b.len(),
            i <= a.len(),
            forall|j: int| 0 <= j < i ==> a@[j] == b@[j],
        decreases a.len() - i,
    {
        if a[i] != b[i] {
            return false;
        }
        i += 1;
    }
    assert(a@ =~= b@);
    true
}

// ------------------------------------------------------------------------
// Walking
// ------------------------------------------------------------------------

/// Directories skipped by the walk (common noise).
pub open spec fn is_noise_dir(name: Seq<char>) -> bool {
    name == ".git"@ || name == "node_modules"@ || name == "target"@ || name == "vendor"@ || name
        == "vendors"@ || name == "dist"@ || name == ".next"@ || name == ".svelte-kit"@ || name
        == ".cache"@ || name == ".output"@
}

/// Whether the walk skips an entry (below the root) with this name: hidden
/// files and directories, and the noise directories.
pub open spec fn skipped(name: Seq<char>, is_dir: bool) -> bool {
    (name.len() > 0 && name[0] == '.') || (is_dir && is_noise_dir(name))
}

/// The directories the walk never enters.
pub open spec fn noise_dir_names() -> Seq<Seq<char>> {
    seq![
        ".git"@,
        "node_modules"@,
        "target"@,
        "vendor"@,
        "vendors"@,
        "dist"@,
        ".next"@,
        ".svelte-kit"@,
        ".cache"@,
        ".output"@,
    ]
}

/// The walk skips a directory exactly when its name starts with `.` or is
/// one of `.git`, `node_modules`, `target`, `vendor`, `vendors`, `dist`,
/// `.next`, `.svelte-kit`, `.cache`, `.output`; it skips a file exactly when
/// its name starts with `.`.
pub proof fn law_skip_rule(name: Seq<char>, is_dir: bool)
    ensures
        skipped(name, is_dir) == ((name.len() > 0 && name[0] == '.') || (is_dir
            && noise_dir_names().contains(name))),
        forall|i: int| 0 <= i < noise_dir_names().len() ==> skipped(#[trigger] noise_dir_names()[i], true),
{
    let ns = noise_dir_names();
    assert(ns[0] == ".git"@ && ns[1] == "node_modules"@ && ns[2] == "target"@ && ns[3] == "vendor"@
        && ns[4] == "vendors"@ && ns[5] == "dist"@ && ns[6] == ".next"@ && ns[7] == ".svelte-kit"@
        && ns[8] == ".cache"@ && ns[9] == ".output"@);
    if ns.contains(name) {
        let i = choose|i: int| 0 <= i < ns.len() && ns[i] == name;
        assert(is_noise_dir(name));
    }
    if is_noise_dir(name) {
        if name == ".git"@ { assert(ns[0] == name); }
        else if name == "node_modules"@ { assert(ns[1] == name); }
        else if name == "target"@ { assert(ns[2] == name); }
        else if name == "vendor"@ { assert(ns[3] == name); }
        else if name == "vendors"@ { assert(ns[4] == name); }
        else if name == "dist"@ { assert(ns[5] == name); }
        else if name == ".next"@ { assert(ns[6] == name); }
        else if name == ".svelte-kit"@ { assert(ns[7] == name); }
        else if name == ".cache"@ { assert(ns[8] == name); }
        else { assert(ns[9] == name); }
    }
}

/// Whether the walk skips an entry below the root: hidden files and
/// directories, and common noise directories.
pub fn skip_entry(name: &str, is_dir: bool) -> (res: bool)
    ensures
        res == skipped(name@, is_dir),
        res == ((name@.len() > 0 && name@[0] == '.') || (is_dir && noise_dir_names().contains(
            name@,
        ))),
{
    proof {
        law_skip_rule(name@, is_dir);
    }
    if name.unicode_len() > 0 && name.get_char(0) == '.' {
        return true;
    }
    is_dir && (text_eq(name, ".git") || text_eq(name, "node_modules") || text_eq(name, "target")
        || text_eq(name, "vendor") || text_eq(name, "vendors") || text_eq(name, "dist") || text_eq(
        name,
        ".next",
    ) || text_eq(name, ".svelte-kit") || text_eq(name, ".cache") || text_eq(name, ".output"))
}

// ------------------------------------------------------------------------
// Ordering of paths
// ------------------------------------------------------------------------

/// The rank of a character in path order: `/` before everything else, so
/// that paths compare component by component.
pub open spec fn path_rank(c: char) -> int {
    if c == '/' {
        -1
    } else {
        (c as u32) as int
    }
}

/// Strict order of paths, component by component.
pub open spec fn path_lt(a: Seq<char>, b: Seq<char>) -> bool
    decreases a.len(),
{
    if a.len() == 0 {
        b.len() > 0
    } else if b.len() == 0 {
        false
    } else if a[0] != b[0] {
        path_rank(a[0]) < path_rank(b[0])
    } else {
        path_lt(a.drop_first(), b.drop_first())
    }
}

pub proof fn lemma_path_lt_irreflexive(a: Seq<char>)
    ensures
        !path_lt(a, a),
    decreases a.len(),
{
    if a.len() > 0 {
        lemma_path_lt_irreflexive(a.drop_first());
    }
}

pub proof fn lemma_path_lt_transitive(a: Seq<char>, b: Seq<char>, c: Seq<char>)
    requires
        path_lt(a, b),
        path_lt(b, c),
    ensures
        path_lt(a, c),
    decreases a.len(),
{
    if a.len() > 0 && b.len() > 0 && c.len() > 0 {
        if a[0] == b[0] && b[0] == c[0] {
            lemma_path_lt_transitive(a.drop_first(), b.drop_first(), c.drop_first());
        }
    }
}

pub proof fn lemma_path_lt_total(a: Seq<char>, b: Seq<char>)
    requires
        a != b,
    ensures
        path_lt(a, b) || path_lt(b, a),
    decreases a.len(),
{
    if a.len() > 0 && b.len() > 0 {
        if a[0] == b[0] {
            if a.drop_first() == b.drop_first() {
                assert(a =~= seq![a[0]] + a.drop_first());
                assert(b =~= seq![b[0]] + b.drop_first());
            }
            lemma_path_lt_total(a.drop_first(), b.drop_first());
        } else if a[0] != '/' && b[0] != '/' && (a[0] as u32) == (b[0] as u32) {
            vstd::utf8::char_u32_cast(a[0], a[0] as u32);
            vstd::utf8::char_u32_cast(b[0], b[0] as u32);
        }
    } else if a.len() == 0 && b.len() == 0 {
        assert(a =~= b);
    }
}

/// Whether `a` sorts strictly before `b` in path order.
pub fn path_less(a: &str, b: &str) -> (res: bool)
    ensures
        res == path_lt(a@, b@),
{
    let n = a.unicode_len();
    let m = b.unicode_len();
    let mut i: usize = 0;
    assert(a@.skip(0) =~= a@);
    assert(b@.skip(0) =~= b@);
    while i < n && i < m
        invariant
            n == a@.len(),
            m == b@.len(),
            i <= n,
            i <= m,
            path_lt(a@, b@) == path_lt(a@.skip(i as int), b@.skip(i as int)),
        decreases n - i,
    {
        let ca = a.get_char(i);
        let cb = b.get_char(i);
        if ca != cb {
            if ca == '/' {
                return true;
            }
            if cb == '/' {
                return false;
            }
            return (ca as u32) < (cb as u32);
        }
        proof {
            assert(a@.skip(i as int).drop_first() =~= a@.skip(i as int + 1));
            assert(b@.skip(i as int).drop_first() =~= b@.skip(i as int + 1));
        }
        i += 1;
    }
    i < m
}

// ------------------------------------------------------------------------
// The diff
// ------------------------------------------------------------------------

/// Whether some file of the listing has path `p`.
pub open spec fn in_listing(l: Seq<WalkedFile>, p: Seq<char>) -> bool {
    exists|i: int| 0 <= i < l.len() && (#[trigger] l[i]).relative_path@ == p
}

/// No two files of the listing share a path (as in a directory walk).
pub open spec fn paths_distinct(l: Seq<WalkedFile>) -> bool {
    forall|i: int, j: int|
        0 <= i < j < l.len() ==> (#[trigger] l[i]).relative_path@ != (#[trigger] l[j]).relative_path@
}

/// The hash of the file of the listing with path `p`.
pub open spec fn listing_hash(l: Seq<WalkedFile>, p: Seq<char>) -> Seq<u8> {
    content_hash(l[choose|i: int| 0 <= i < l.len() && (#[trigger] l[i]).relative_path@ == p].content)
}

/// The state a path should be reported in, if it differs at all: new when
/// only the template has it, deleted when only the project has it, modified
/// when both have it with different hashes.
#[verifier::opaque]
pub open spec fn expected_state(project: Seq<WalkedFile>, template: Seq<WalkedFile>, p: Seq<char>) -> Option<
    FileState,
> {
    let in_p = in_listing(project, p);
    let in_t = in_listing(template, p);
    if in_t && !in_p {
        Some(FileState::New)
    } else if in_p && !in_t {
        Some(FileState::Deleted)
    } else if in_p && in_t && listing_hash(project, p) != listing_hash(template, p) {
        Some(FileState::Modified)
    } else {
        None
    }
}

/// Entries in strictly increasing path order.
pub open spec fn sorted_by_path(s: Seq<DiffEntry>) -> bool {
    forall|i: int, j: int|
        0 <= i < j < s.len() ==> path_lt(
            (#[trigger] s[i]).relative_path@,
            (#[trigger] s[j]).relative_path@,
        )
}

/// Whether some entry has path `p`.
pub open spec fn has_entry(s: Seq<DiffEntry>, p: Seq<char>) -> bool {
    exists|i: int| 0 <= i < s.len() && (#[trigger] s[i]).relative_path@ == p
}

/// An entry as the diff reports it.
pub open spec fn entry_fits(
    e: DiffEntry,
    project: Seq<WalkedFile>,
    template: Seq<WalkedFile>,
    ignore: Seq<Seq<char>>,
) -> bool {
    &&& expected_state(project, template, e.relative_path@) == Some(e.state)
    &&& e.ignored == ignored_by(ignore, e.relative_path@)
    &&& e.commit_info is None
}

/// Every entry is as the diff reports it.
pub open spec fn all_fit(
    s: Seq<DiffEntry>,
    project: Seq<WalkedFile>,
    template: Seq<WalkedFile>,
    ignore: Seq<Seq<char>>,
) -> bool {
    forall|i: int| 0 <= i < s.len() ==> entry_fits(#[trigger] s[i], project, template, ignore)
}

/// Whether one of the first `n` files of the listing has path `p`.
pub open spec fn in_first(l: Seq<WalkedFile>, n: int, p: Seq<char>) -> bool {
    exists|k: int| 0 <= k < n && k < l.len() && (#[trigger] l[k]).relative_path@ == p
}

fn find_file(l: &Vec<WalkedFile>, path: &String) -> (res: Option<usize>)
    ensures
        match res {
            Some(k) => k < l@.len() && l@[k as int].relative_path@ == path@,
            None => !in_listing(l@, path@),
        },
{
    let mut i: usize = 0;
    while i < l.len()
        invariant
            i <= l.len(),
            forall|j: int| 0 <= j < i ==> (#[trigger] l@[j]).relative_path@ != path@,
        decreases l.len() - i,
    {
        if l[i].relative_path == *path {
            return Some(i);
        }
        i += 1;
    }
    None
}

proof fn lemma_listing_hash(l: Seq<WalkedFile>, k: int)
    requires
        paths_distinct(l),
        0 <= k < l.len(),
    ensures
        listing_hash(l, l[k].relative_path@) == content_hash(l[k].content),
        in_listing(l, l[k].relative_path@),
{
    let p = l[k].relative_path@;
    assert(l[k].relative_path@ == p);
    let c = choose|i: int| 0 <= i < l.len() && (#[trigger] l[i]).relative_path@ == p;
    if c != k {
        if c < k {
            assert(l[c].relative_path@ != l[k].relative_path@);
        } else {
            assert(l[k].relative_path@ != l[c].relative_path@);
        }
    }
}

/// The state of a template file the project lacks.
proof fn lemma_state_new(project: Seq<WalkedFile>, template: Seq<WalkedFile>, j: int)
    requires
        0 <= j < template.len(),
        !in_listing(project, template[j].relative_path@),
    ensures
        expected_state(project, template, template[j].relative_path@) == Some(FileState::New),
{
    reveal(expected_state);
    assert(in_listing(template, template[j].relative_path@));
}

/// The state of a file both listings hold.
proof fn lemma_state_both(project: Seq<WalkedFile>, template: Seq<WalkedFile>, k: int, j: int)
    requires
        paths_distinct(project),
        paths_distinct(template),
        0 <= j < template.len(),
        0 <= k < project.len(),
        project[k].relative_path@ == template[j].relative_path@,
    ensures
        expected_state(project, template, template[j].relative_path@) == if content_hash(
            project[k].content,
        ) != content_hash(template[j].content) {
            Some(FileState::Modified)
        } else {
            None
        },
{
    reveal(expected_state);
    lemma_listing_hash(project, k);
    lemma_listing_hash(template, j);
}

/// The state of a project file the template lacks.
proof fn lemma_state_deleted(project: Seq<WalkedFile>, template: Seq<WalkedFile>, k: int)
    requires
        0 <= k < project.len(),
        !in_listing(template, project[k].relative_path@),
    ensures
        expected_state(project, template, project[k].relative_path@) == Some(FileState::Deleted),
{
    reveal(expected_state);
    assert(in_listing(project, project[k].relative_path@));
}

/// A path only a project file has is never expected from the template side,
/// and one a template file has is covered by the template side.
proof fn lemma_state_present(project: Seq<WalkedFile>, template: Seq<WalkedFile>, p: Seq<char>)
    requires
        expected_state(project, template, p) is Some,
    ensures
        in_listing(project, p) || in_listing(template, p),
{
    reveal(expected_state);
}

proof fn lemma_not_in_first(l: Seq<WalkedFile>, j: int)
    requires
        paths_distinct(l),
        0 <= j < l.len(),
    ensures
        !in_first(l, j, l[j].relative_path@),
        in_first(l, j + 1, l[j].relative_path@),
{
    if in_first(l, j, l[j].relative_path@) {
        let k = choose|k: int| 0 <= k < j && k < l.len() && (#[trigger] l[k]).relative_path@ == l[j].relative_path@;
        assert(l[k].relative_path@ != l[j].relative_path@);
    }
    assert(l[j].relative_path@ == l[j].relative_path@);
}

/// Insert `e` at its place in path order.
fn insert_by_path(
    diffs: &mut Vec<DiffEntry>,
    e: DiffEntry,
    Ghost(project): Ghost<Seq<WalkedFile>>,
    Ghost(template): Ghost<Seq<WalkedFile>>,
    Ghost(ignore): Ghost<Seq<Seq<char>>>,
)
    requires
        sorted_by_path(old(diffs)@),
        !has_entry(old(diffs)@, e.relative_path@),
        all_fit(old(diffs)@, project, template, ignore),
        entry_fits(e, project, template, ignore),
    ensures
        sorted_by_path(final(diffs)@),
        all_fit(final(diffs)@, project, template, ignore),
        forall|x: Seq<char>|
            #[trigger] has_entry(final(diffs)@, x) <==> (has_entry(old(diffs)@, x) || x == e.relative_path@),
{
    let ghost s = diffs@;
    let mut pos: usize = 0;
    while pos < diffs.len() && !path_less(e.relative_path.as_str(), diffs[pos].relative_path.as_str())
        invariant
            s == diffs@,
            pos <= diffs.len(),
            forall|j: int| 0 <= j < pos ==> !path_lt(e.relative_path@, (#[trigger] s[j]).relative_path@),
        decreases diffs.len() - pos,
    {
        pos += 1;
    }
    diffs.insert(pos, e);
    proof {
        let t = diffs@;
        let p = pos as int;
        assert(t == s.insert(p, e));
        assert forall|i: int, j: int| 0 <= i < j < t.len() implies path_lt(
            (#[trigger] t[i]).relative_path@,
            (#[trigger] t[j]).relative_path@,
        ) by {
            if i < p && j < p {
                assert(t[i] == s[i] && t[j] == s[j]);
            } else if i < p && j == p {
                assert(s[i].relative_path@ != e.relative_path@);
                lemma_path_lt_total(s[i].relative_path@, e.relative_path@);
            } else if i < p && j > p {
                assert(t[j] == s[j - 1]);
                assert(path_lt(s[i].relative_path@, s[j - 1].relative_path@));
            } else if i == p {
                assert(t[j] == s[j - 1]);
                assert(path_lt(e.relative_path@, s[p].relative_path@));
                if j - 1 > p {
                    assert(path_lt(s[p].relative_path@, s[j - 1].relative_path@));
                    lemma_path_lt_transitive(e.relative_path@, s[p].relative_path@, s[j - 1].relative_path@);
                }
            } else {
                assert(t[i] == s[i - 1] && t[j] == s[j - 1]);
            }
        }
        assert forall|i: int| 0 <= i < t.len() implies entry_fits(#[trigger] t[i], project, template, ignore) by {
            if i < p {
                assert(t[i] == s[i]);
            } else if i > p {
                assert(t[i] == s[i - 1]);
            }
        }
        assert forall|x: Seq<char>|
            #[trigger] has_entry(t, x) <==> (has_entry(s, x) || x == e.relative_path@) by {
            if has_entry(t, x) {
                let i = choose|i: int| 0 <= i < t.len() && (#[trigger] t[i]).relative_path@ == x;
                if i < p {
                    assert(t[i] == s[i]);
                } else if i > p {
                    assert(t[i] == s[i - 1]);
                }
            }
            if has_entry(s, x) {
                let i = choose|i: int| 0 <= i < s.len() && (#[trigger] s[i]).relative_path@ == x;
                if i < p {
                    assert(t[i] == s[i]);
                } else {
                    assert(t[i + 1] == s[i]);
                }
            }
            if x == e.relative_path@ {
                assert(t[p] == e);
            }
        }
    }
}

/// Diff two directory listings (project and template), returning the
/// differences in path order.
///
/// Files are compared by path + content hash:
/// - Files in template but not project (New)
/// - Files in both with different content (Modified)
/// - Files in project but not template (Deleted)
///
/// Each entry is marked ignored when the ignore list matches its path; ignored
/// entries are kept, never hidden.
pub fn diff_directories(
    project: &Vec<WalkedFile>,
    template: &Vec<WalkedFile>,
    ignore: &IgnoreList,
) -> (res: Vec<DiffEntry>)
    requires
        paths_distinct(project@),
        paths_distinct(template@),
    ensures
        sorted_by_path(res@),
        all_fit(res@, project@, template@, ignore@),
        forall|p: Seq<char>|
            #[trigger] expected_state(project@, template@, p) is Some ==> has_entry(res@, p),
{
    let ghost pr = project@;
    let ghost te = template@;
    let ghost ig = ignore@;
    let mut diffs: Vec<DiffEntry> = Vec::new();
    // Files in the template: New when the project lacks them, Modified when
    // their hashes differ.
    let mut j: usize = 0;
    while j < template.len()
        invariant
            pr == project@,
            te == template@,
            ig == ignore@,
            paths_distinct(pr),
            paths_distinct(te),
            j <= te.len(),
            sorted_by_path(diffs@),
            all_fit(diffs@, pr, te, ig),
            forall|x: Seq<char>| #[trigger] has_entry(diffs@, x) ==> in_first(te, j as int, x),
            forall|k: int|
                0 <= k < j && expected_state(pr, te, (#[trigger] te[k]).relative_path@) is Some
                    ==> has_entry(diffs@, te[k].relative_path@),
        decreases te.len() - j,
    {
        let t = &template[j];
        let ghost p = t.relative_path@;
        let ghost before = diffs@;
        proof {
            lemma_not_in_first(te, j as int);
        }
        match find_file(project, &t.relative_path) {
            None => {
                proof {
                    lemma_state_new(pr, te, j as int);
                }
                let e = DiffEntry {
                    relative_path: t.relative_path.clone(),
                    state: FileState::New,
                    commit_info: None,
                    ignored: ignore.is_ignored(t.relative_path.as_str()),
                };
                insert_by_path(&mut diffs, e, Ghost(pr), Ghost(te), Ghost(ig));
            },
            Some(k) => {
                proof {
                    lemma_state_both(pr, te, k as int, j as int);
                }
                let p_hash = hash_contents(&project[k].content);
                let t_hash = hash_contents(&t.content);
                if !bytes_eq(&p_hash, &t_hash) {
                    let e = DiffEntry {
                        relative_path: t.relative_path.clone(),
                        state: FileState::Modified,
                        commit_info: None,
                        ignored: ignore.is_ignored(t.relative_path.as_str()),
                    };
                    insert_by_path(&mut diffs, e, Ghost(pr), Ghost(te), Ghost(ig));
                }
            },
        }
        proof {
            assert forall|x: Seq<char>| #[trigger] has_entry(diffs@, x) implies in_first(te, j + 1, x) by {
                if x != p {
                    assert(has_entry(before, x));
                    let k = choose|k: int| 0 <= k < j && k < te.len() && (#[trigger] te[k]).relative_path@ == x;
                    assert(0 <= k < j + 1);
                }
            }
            assert forall|k: int|
                0 <= k < j + 1 && expected_state(pr, te, (#[trigger] te[k]).relative_path@) is Some
                    implies has_entry(diffs@, te[k].relative_path@) by {
                if k < j {
                    assert(has_entry(before, te[k].relative_path@));
                }
            }
        }
        j += 1;
    }
    // Files only in the project: Deleted.
    let mut k: usize = 0;
    while k < project.len()
        invariant
            pr == project@,
            te == template@,
            ig == ignore@,
            paths_distinct(pr),
            paths_distinct(te),
            k <= pr.len(),
            sorted_by_path(diffs@),
            all_fit(diffs@, pr, te, ig),
            forall|x: Seq<char>|
                #[trigger] has_entry(diffs@, x) ==> in_listing(te, x) || in_first(pr, k as int, x),
            forall|q: int|
                0 <= q < te.len() && expected_state(pr, te, (#[trigger] te[q]).relative_path@) is Some
                    ==> has_entry(diffs@, te[q].relative_path@),
            forall|q: int|
                0 <= q < k && expected_state(pr, te, (#[trigger] pr[q]).relative_path@) is Some
                    ==> has_entry(diffs@, pr[q].relative_path@),
        decreases pr.len() - k,
    {
        let f = &project[k];
        let ghost p = f.relative_path@;
        let ghost before = diffs@;
        proof {
            lemma_not_in_first(pr, k as int);
        }
        if find_file(template, &f.relative_path).is_none() {
            proof {
                lemma_state_deleted(pr, te, k as int);
            }
            let e = DiffEntry {
                relative_path: f.relative_path.clone(),
                state: FileState::Deleted,
                commit_info: None,
                ignored: ignore.is_ignored(f.relative_path.as_str()),
            };
            insert_by_path(&mut diffs, e, Ghost(pr), Ghost(te), Ghost(ig));
        }
        proof {
            assert forall|x: Seq<char>| #[trigger] has_entry(diffs@, x) implies in_listing(te, x) || in_first(pr, k + 1, x) by {
                if x != p && !in_listing(te, x) {
                    assert(has_entry(before, x));
                    let q = choose|q: int| 0 <= q < k && q < pr.len() && (#[trigger] pr[q]).relative_path@ == x;
                    assert(0 <= q < k + 1);
                }
            }
            assert forall|q: int|
                0 <= q < te.len() && expected_state(pr, te, (#[trigger] te[q]).relative_path@) is Some
                    implies has_entry(diffs@, te[q].relative_path@) by {
                assert(has_entry(before, te[q].relative_path@));
            }
            assert forall|q: int|
                0 <= q < k + 1 && expected_state(pr, te, (#[trigger] pr[q]).relative_path@) is Some
                    implies has_entry(diffs@, pr[q].relative_path@) by {
                if q < k {
                    assert(has_entry(before, pr[q].relative_path@));
                } else if in_listing(te, p) {
                    let q2 = choose|q2: int| 0 <= q2 < te.len() && (#[trigger] te[q2]).relative_path@ == p;
                    assert(has_entry(before, te[q2].relative_path@));
                }
            }
        }
        k += 1;
    }
    proof {
        assert forall|p: Seq<char>|
            #[trigger] expected_state(pr, te, p) is Some implies has_entry(diffs@, p) by {
            lemma_state_present(pr, te, p);
            if in_listing(te, p) {
                let q = choose|q: int| 0 <= q < te.len() && (#[trigger] te[q]).relative_path@ == p;
            } else {
                let q = choose|q: int| 0 <= q < pr.len() && (#[trigger] pr[q]).relative_path@ == p;
            }
        }
    }
    diffs
}

// ------------------------------------------------------------------------
// Commit context
// ------------------------------------------------------------------------

/// Whether an entry gets a commit line: only files the template has.
pub fn wants_commit_info(entry: &DiffEntry) -> (res: bool)
    ensures
        res == (entry.state != FileState::Deleted),
{
    entry.state != FileState::Deleted
}

/// The commit line for `git log -1 --format="%h %as %s"` output: the output
/// trimmed, or nothing when that leaves it empty.
pub fn commit_summary(output: &str) -> (res: Option<String>)
    ensures
        match res {
            Some(line) => line@ == trimmed(output@) && line@.len() > 0,
            None => trimmed(output@).len() == 0,
        },
{
    let line = trim_text(output);
    if line.unicode_len() > 0 {
        Some(line.to_owned())
    } else {
        None
    }
}

/// Files that both listings hold with the same contents are never reported.
pub proof fn law_identical_unreported(
    project: Seq<WalkedFile>,
    template: Seq<WalkedFile>,
    k: int,
    j: int,
)
    requires
        paths_distinct(project),
        paths_distinct(template),
        0 <= k < project.len(),
        0 <= j < template.len(),
        project[k].relative_path@ == template[j].relative_path@,
        content_hash(project[k].content) == content_hash(template[j].content),
    ensures
        expected_state(project, template, template[j].relative_path@) is None,
{
    lemma_state_both(project, template, k, j);
}

/// A file that both listings hold, with contents whose hashes differ, is
/// reported as modified.
pub proof fn law_changed_is_modified(
    project: Seq<WalkedFile>,
    template: Seq<WalkedFile>,
    k: int,
    j: int,
)
    requires
        paths_distinct(project),
        paths_distinct(template),
        0 <= k < project.len(),
        0 <= j < template.len(),
        project[k].relative_path@ == template[j].relative_path@,
        content_hash(project[k].content) != content_hash(template[j].content),
    ensures
        expected_state(project, template, template[j].relative_path@) == Some(FileState::Modified),
{
    lemma_state_both(project, template, k, j);
}

/// A file present in both listings whose contents differ in hash is
/// reported as modified; one only the template has, as new; one only the
/// project has, as deleted.
pub proof fn law_states(project: Seq<WalkedFile>, template: Seq<WalkedFile>, p: Seq<char>)
    requires
        paths_distinct(project),
        paths_distinct(template),
    ensures
        in_listing(template, p) && !in_listing(project, p) ==> expected_state(project, template, p)
            == Some(FileState::New),
        in_listing(project, p) && !in_listing(template, p) ==> expected_state(project, template, p)
            == Some(FileState::Deleted),
        !in_listing(project, p) && !in_listing(template, p) ==> expected_state(
            project,
            template,
            p,
        ) is None,
{
    reveal(expected_state);
}

} // verus!
