//! The mathematical model of the checkbox tree: every `TreeNode` is viewed as
//! an `SNode`, whose texts are character sequences and whose children form a
//! `Seq`. The operations of `tree.rs` are specified as functions on it.

use vstd::prelude::*;

use crate::diff::FileState;
use crate::text::{join_key, lists_path, path_key, same_path, text_lt, texts_of};

verus! {

/// The model of a file node.
pub struct SFile {
    pub name: Seq<char>,
    pub path: Seq<char>,
    pub state: FileState,
    pub checked: bool,
    pub ignored: bool,
    pub commit_info: Option<Seq<char>>,
}

/// The model of a tree node.
pub enum SNode {
    File(SFile),
    Folder { name: Seq<char>, path: Seq<char>, children: Seq<SNode>, expanded: bool },
}

/// The model of a row of the flattened display list.
pub struct SItem {
    pub path: Seq<char>,
    pub depth: int,
    pub label: Seq<char>,
    pub is_folder: bool,
    pub is_expanded: bool,
    pub state: FileState,
    pub checked: bool,
    pub ignored: bool,
    pub total_count: int,
    pub selectable_count: int,
    pub checked_count: int,
    pub commit_info: Option<Seq<char>>,
}

pub open spec fn opt_text(o: Option<String>) -> Option<Seq<char>> {
    match o {
        Some(s) => Some(s@),
        None => None,
    }
}

/// The path of the artificial root folder.
pub open spec fn root_path() -> Seq<char> {
    seq!['/']
}

/// The label of the row that stands for the artificial root.
pub open spec fn global_label() -> Seq<char> {
    seq!['G', 'L', 'O', 'B', 'A', 'L']
}

impl SNode {
    pub open spec fn name(self) -> Seq<char> {
        match self {
            SNode::File(f) => f.name,
            SNode::Folder { name, .. } => name,
        }
    }

    pub open spec fn path(self) -> Seq<char> {
        match self {
            SNode::File(f) => f.path,
            SNode::Folder { path, .. } => path,
        }
    }

    pub open spec fn children(self) -> Seq<SNode> {
        match self {
            SNode::File(_) => Seq::empty(),
            SNode::Folder { children, .. } => children,
        }
    }
}

/// Number of nodes of a tree (used to measure recursion).
pub open spec fn size(n: SNode) -> nat
    decreases n,
{
    match n {
        SNode::File(_) => 1,
        SNode::Folder { children, .. } => 1 + size_of(children),
    }
}

pub open spec fn size_of(s: Seq<SNode>) -> nat
    decreases s,
{
    if s.len() == 0 {
        0
    } else {
        size_of(s.subrange(0, s.len() - 1)) + size(s[s.len() - 1])
    }
}

/// Height of a tree: 1 for a file or an empty folder.
pub open spec fn height(n: SNode) -> nat
    decreases n,
{
    match n {
        SNode::File(_) => 1,
        SNode::Folder { children, .. } => 1 + height_of(children),
    }
}

pub open spec fn height_of(s: Seq<SNode>) -> nat
    decreases s,
{
    if s.len() == 0 {
        0
    } else {
        let h = height(s[s.len() - 1]);
        let r = height_of(s.subrange(0, s.len() - 1));
        if h < r { r } else { h }
    }
}

/// The files of a tree, in display (pre-)order.
pub open spec fn files(n: SNode) -> Seq<SFile>
    decreases n,
{
    match n {
        SNode::File(f) => seq![f],
        SNode::Folder { children, .. } => files_of(children),
    }
}

pub open spec fn files_of(s: Seq<SNode>) -> Seq<SFile>
    decreases s,
{
    if s.len() == 0 {
        Seq::empty()
    } else {
        files_of(s.subrange(0, s.len() - 1)) + files(s[s.len() - 1])
    }
}

/// Number of checked files in a list.
pub open spec fn count_checked(fs: Seq<SFile>) -> nat
    decreases fs.len(),
{
    if fs.len() == 0 {
        0
    } else {
        count_checked(fs.drop_last()) + if fs.last().checked { 1nat } else { 0nat }
    }
}

/// Number of files in a list that can be selected (all but the deleted ones).
pub open spec fn count_selectable(fs: Seq<SFile>) -> nat
    decreases fs.len(),
{
    if fs.len() == 0 {
        0
    } else {
        count_selectable(fs.drop_last()) + if fs.last().state != FileState::Deleted {
            1nat
        } else {
            0nat
        }
    }
}

/// Paths of the checked files of a list, in order.
pub open spec fn checked_paths(fs: Seq<SFile>) -> Seq<Seq<char>>
    decreases fs.len(),
{
    if fs.len() == 0 {
        Seq::empty()
    } else {
        checked_paths(fs.drop_last()) + if fs.last().checked {
            seq![fs.last().path]
        } else {
            Seq::empty()
        }
    }
}

/// Paths of all files of a list, in order.
pub open spec fn file_paths(fs: Seq<SFile>) -> Seq<Seq<char>> {
    fs.map_values(|f: SFile| f.path)
}

/// A node that stands in for an index out of range; never observed.
pub open spec fn filler_node() -> SNode {
    SNode::Folder { name: Seq::empty(), path: Seq::empty(), children: Seq::empty(), expanded: false }
}

/// A file with its checkbox set to `c`, unless it is deleted (those never change).
pub open spec fn file_with_checked(f: SFile, c: bool) -> SFile {
    if f.state != FileState::Deleted {
        SFile { checked: c, ..f }
    } else {
        f
    }
}

/// A tree whose every selectable file has its checkbox set to `c`.
pub open spec fn with_checked(n: SNode, c: bool) -> SNode
    decreases n,
{
    match n {
        SNode::File(f) => SNode::File(file_with_checked(f, c)),
        SNode::Folder { name, path, children, expanded } => SNode::Folder {
            name,
            path,
            children: all_with_checked(children, c),
            expanded,
        },
    }
}

pub open spec fn all_with_checked(s: Seq<SNode>, c: bool) -> Seq<SNode>
    decreases s,
{
    Seq::new(
        s.len(),
        |i: int|
            if 0 <= i < s.len() {
                with_checked(s[i], c)
            } else {
                filler_node()
            },
    )
}

/// The effect of pressing space on a node: a selectable file flips; a folder
/// checks every selectable file below it unless all of them are checked
/// already, in which case it unchecks them all.
pub open spec fn toggled(n: SNode) -> SNode {
    match n {
        SNode::File(f) => SNode::File(
            if f.state != FileState::Deleted {
                SFile { checked: !f.checked, ..f }
            } else {
                f
            },
        ),
        SNode::Folder { .. } => with_checked(
            n,
            count_checked(files(n)) < count_selectable(files(n)),
        ),
    }
}

/// Paths of the collapsed folders of a tree, in display order.
pub open spec fn collapsed(n: SNode) -> Seq<Seq<char>>
    decreases n,
{
    match n {
        SNode::File(_) => Seq::empty(),
        SNode::Folder { path, children, expanded, .. } => (if !expanded {
            seq![path]
        } else {
            Seq::empty()
        }) + collapsed_of(children),
    }
}

pub open spec fn collapsed_of(s: Seq<SNode>) -> Seq<Seq<char>>
    decreases s,
{
    if s.len() == 0 {
        Seq::empty()
    } else {
        collapsed_of(s.subrange(0, s.len() - 1)) + collapsed(s[s.len() - 1])
    }
}

/// A tree in which every folder whose path is, as a path, listed in `ps` is
/// collapsed.
pub open spec fn with_collapsed(n: SNode, ps: Seq<Seq<char>>) -> SNode
    decreases n,
{
    match n {
        SNode::File(_) => n,
        SNode::Folder { name, path, children, expanded } => SNode::Folder {
            name,
            path,
            children: all_with_collapsed(children, ps),
            expanded: if lists_path(ps, path) {
                false
            } else {
                expanded
            },
        },
    }
}

pub open spec fn all_with_collapsed(s: Seq<SNode>, ps: Seq<Seq<char>>) -> Seq<SNode>
    decreases s,
{
    Seq::new(
        s.len(),
        |i: int|
            if 0 <= i < s.len() {
                with_collapsed(s[i], ps)
            } else {
                filler_node()
            },
    )
}

/// The file paths below the first node, in display order, whose path is `p`
/// and which has files; empty when there is none.
pub open spec fn paths_at(n: SNode, p: Seq<char>) -> Seq<Seq<char>>
    decreases n, 0nat,
{
    if same_path(n.path(), p) {
        file_paths(files(n))
    } else {
        match n {
            SNode::File(_) => Seq::empty(),
            SNode::Folder { children, .. } => paths_at_from(children, p, 0),
        }
    }
}

/// `paths_at` over the nodes of `s` from index `i` on: the first non-empty answer.
pub open spec fn paths_at_from(s: Seq<SNode>, p: Seq<char>, i: int) -> Seq<Seq<char>>
    decreases s, s.len() - i,
{
    if i < 0 || i >= s.len() {
        Seq::empty()
    } else {
        let r = paths_at(s[i], p);
        if r.len() > 0 {
            r
        } else {
            paths_at_from(s, p, i + 1)
        }
    }
}

/// Toggling the first node, in display order, whose path is `p`; the flag
/// tells whether there was one.
pub open spec fn toggled_at(n: SNode, p: Seq<char>) -> (SNode, bool)
    decreases n, 0nat,
{
    if same_path(n.path(), p) {
        (toggled(n), true)
    } else {
        match n {
            SNode::File(_) => (n, false),
            SNode::Folder { name, path, children, expanded } => {
                let r = toggled_at_from(children, p, 0);
                (SNode::Folder { name, path, children: r.0, expanded }, r.1)
            },
        }
    }
}

pub open spec fn toggled_at_from(s: Seq<SNode>, p: Seq<char>, i: int) -> (Seq<SNode>, bool)
    decreases s, s.len() - i,
{
    if i < 0 || i >= s.len() {
        (s, false)
    } else {
        let r = toggled_at(s[i], p);
        if r.1 {
            (s.update(i, r.0), true)
        } else {
            toggled_at_from(s, p, i + 1)
        }
    }
}

/// Expanding or collapsing the first folder, in display order, whose path is
/// `p`; the flag tells whether there was one.
pub open spec fn expand_toggled_at(n: SNode, p: Seq<char>) -> (SNode, bool)
    decreases n, 0nat,
{
    match n {
        SNode::File(_) => (n, false),
        SNode::Folder { name, path, children, expanded } => if same_path(path, p) {
            (SNode::Folder { name, path, children, expanded: !expanded }, true)
        } else {
            let r = expand_toggled_at_from(children, p, 0);
            (SNode::Folder { name, path, children: r.0, expanded }, r.1)
        },
    }
}

pub open spec fn expand_toggled_at_from(s: Seq<SNode>, p: Seq<char>, i: int) -> (
    Seq<SNode>,
    bool,
)
    decreases s, s.len() - i,
{
    if i < 0 || i >= s.len() {
        (s, false)
    } else {
        let r = expand_toggled_at(s[i], p);
        if r.1 {
            (s.update(i, r.0), true)
        } else {
            expand_toggled_at_from(s, p, i + 1)
        }
    }
}

/// The display row of a file.
pub open spec fn file_item(f: SFile, depth: int) -> SItem {
    SItem {
        path: f.path,
        depth,
        label: f.name,
        is_folder: false,
        is_expanded: false,
        state: f.state,
        checked: f.checked,
        ignored: f.ignored,
        total_count: 0,
        selectable_count: 0,
        checked_count: 0,
        commit_info: f.commit_info,
    }
}

/// Whether a folder at this depth is the artificial root, shown as GLOBAL.
pub open spec fn is_global(path: Seq<char>, depth: int) -> bool {
    same_path(path, root_path()) && depth == 0
}

/// The display row of a folder.
pub open spec fn folder_item(n: SNode, depth: int) -> SItem {
    let fs = files(n);
    let global = is_global(n.path(), depth);
    SItem {
        path: n.path(),
        depth,
        label: if global {
            global_label()
        } else {
            n.name()
        },
        is_folder: true,
        is_expanded: if global {
            false
        } else {
            n matches SNode::Folder { expanded, .. } && expanded
        },
        state: FileState::Modified,
        checked: count_checked(fs) > 0,
        ignored: false,
        total_count: fs.len() as int,
        selectable_count: count_selectable(fs) as int,
        checked_count: count_checked(fs) as int,
        commit_info: None,
    }
}

/// The rows shown for a tree drawn at `depth`: a node, then, for the root and
/// for an expanded folder, the rows of its children one level deeper.
pub open spec fn display(n: SNode, depth: int) -> Seq<SItem>
    decreases n,
{
    match n {
        SNode::File(f) => seq![file_item(f, depth)],
        SNode::Folder { path, children, expanded, .. } => seq![folder_item(n, depth)] + if is_global(
            path,
            depth,
        ) || expanded {
            display_of(children, depth + 1)
        } else {
            Seq::empty()
        },
    }
}

pub open spec fn display_of(s: Seq<SNode>, depth: int) -> Seq<SItem>
    decreases s,
{
    if s.len() == 0 {
        Seq::empty()
    } else {
        display_of(s.subrange(0, s.len() - 1), depth) + display(s[s.len() - 1], depth)
    }
}

// ------------------------------------------------------------------------
// Building the tree from diff entries
// ------------------------------------------------------------------------

/// The model of a diff entry as the tree sees it.
pub struct SEntry {
    pub path: Seq<char>,
    pub state: FileState,
    pub ignored: bool,
    pub commit_info: Option<Seq<char>>,
}

/// The file node made for an entry: named after the last component of its
/// path, keeping the full path, and pre-checked only when it is modified and
/// not ignored.
pub open spec fn entry_file(e: SEntry) -> SFile {
    SFile {
        name: path_key(e.path).last(),
        path: e.path,
        state: e.state,
        checked: e.state == FileState::Modified && !e.ignored,
        ignored: e.ignored,
        commit_info: e.commit_info,
    }
}

/// `node` wrapped in folders for the components `fc[k..]`, outermost first;
/// each folder is expanded and carries the joined path of its components.
pub open spec fn wrapped(node: SNode, fc: Seq<Seq<char>>, k: int) -> SNode
    decreases fc.len() - k,
{
    if k < 0 || k >= fc.len() {
        node
    } else {
        SNode::Folder {
            name: fc[k],
            path: join_key(fc.take(k + 1)),
            children: seq![wrapped(node, fc, k + 1)],
            expanded: true,
        }
    }
}

/// Index of the first folder named `name` in `s` at or after `i`, or -1.
pub open spec fn first_folder_from(s: Seq<SNode>, name: Seq<char>, i: int) -> int
    decreases s.len() - i,
{
    if i < 0 || i >= s.len() {
        -1
    } else if s[i] is Folder && s[i].name() == name {
        i
    } else {
        first_folder_from(s, name, i + 1)
    }
}

/// Whether some node of `s` is named `name`.
pub open spec fn has_name(s: Seq<SNode>, name: Seq<char>) -> bool {
    exists|i: int| 0 <= i < s.len() && #[trigger] s[i].name() == name
}

/// Merging a node into a list of siblings: a folder joins the first folder of
/// the same name (its children merged in turn), or is appended; a file is
/// appended unless a sibling already has its name.
pub open spec fn merged(s: Seq<SNode>, n: SNode) -> Seq<SNode>
    decreases n, 0nat,
{
    match n {
        SNode::File(_) => if has_name(s, n.name()) {
            s
        } else {
            s.push(n)
        },
        SNode::Folder { name, children, .. } => {
            let k = first_folder_from(s, name, 0);
            if k < 0 {
                s.push(n)
            } else {
                s.update(
                    k,
                    SNode::Folder {
                        name: s[k].name(),
                        path: s[k].path(),
                        children: merged_all(s[k].children(), children),
                        expanded: s[k] matches SNode::Folder { expanded, .. } && expanded,
                    },
                )
            }
        },
    }
}

/// Merging the nodes of `ns`, in order, into `s`.
pub open spec fn merged_all(s: Seq<SNode>, ns: Seq<SNode>) -> Seq<SNode>
    decreases ns, 1nat,
{
    if ns.len() == 0 {
        s
    } else {
        merged(merged_all(s, ns.subrange(0, ns.len() - 1)), ns[ns.len() - 1])
    }
}

/// The effect of inserting one entry into the root's children.
pub open spec fn inserted(s: Seq<SNode>, e: SEntry) -> Seq<SNode> {
    let cs = path_key(e.path);
    if cs.len() == 0 {
        s
    } else if cs.len() == 1 {
        s.push(SNode::File(entry_file(e)))
    } else {
        merged(s, wrapped(SNode::File(entry_file(e)), cs.drop_last(), 0))
    }
}

/// The root's children after inserting every entry, in order.
pub open spec fn inserted_all(es: Seq<SEntry>) -> Seq<SNode>
    decreases es.len(),
{
    if es.len() == 0 {
        Seq::empty()
    } else {
        inserted(inserted_all(es.drop_last()), es.last())
    }
}

/// Display order of siblings: folders before files, then by name.
pub open spec fn node_lt(a: SNode, b: SNode) -> bool {
    if a is Folder && b is File {
        true
    } else if a is File && b is Folder {
        false
    } else {
        text_lt(a.name(), b.name())
    }
}

/// Where `x` goes in `t` (searched from `i`): before the first node that
/// sorts strictly after it, so that equal nodes keep their order.
pub open spec fn insert_pos_from(t: Seq<SNode>, x: SNode, i: int) -> int
    decreases t.len() - i,
{
    if i < 0 || i >= t.len() {
        t.len() as int
    } else if node_lt(x, t[i]) {
        i
    } else {
        insert_pos_from(t, x, i + 1)
    }
}

/// Stable insertion sort of siblings.
pub open spec fn sorted_level(s: Seq<SNode>) -> Seq<SNode>
    decreases s.len(),
{
    if s.len() == 0 {
        Seq::empty()
    } else {
        let t = sorted_level(s.drop_last());
        t.insert(insert_pos_from(t, s.last(), 0), s.last())
    }
}

/// A tree with the children of every folder sorted.
pub open spec fn sorted_node(n: SNode) -> SNode
    decreases n, 2nat,
{
    match n {
        SNode::File(_) => n,
        SNode::Folder { name, path, children, expanded } => SNode::Folder {
            name,
            path,
            children: sorted_forest(children),
            expanded,
        },
    }
}

/// A list of siblings, each sorted inside, then sorted among themselves.
pub open spec fn sorted_forest(s: Seq<SNode>) -> Seq<SNode>
    decreases s, 1nat,
{
    sorted_level(sorted_nodes(s))
}

/// Each of a list of siblings sorted inside.
pub open spec fn sorted_nodes(s: Seq<SNode>) -> Seq<SNode>
    decreases s, 0nat,
{
    Seq::new(
        s.len(),
        |i: int|
            if 0 <= i < s.len() {
                sorted_node(s[i])
            } else {
                filler_node()
            },
    )
}

// ------------------------------------------------------------------------
// Lemmas on the recursive definitions
// ------------------------------------------------------------------------

pub proof fn lemma_files_of_push(s: Seq<SNode>, n: SNode)
    ensures
        files_of(s.push(n)) == files_of(s) + files(n),
        size_of(s.push(n)) == size_of(s) + size(n),
{
    assert(s.push(n).subrange(0, s.len() as int) =~= s);
}

pub proof fn lemma_files_of_take(s: Seq<SNode>, i: int)
    requires
        0 <= i < s.len(),
    ensures
        files_of(s.take(i + 1)) == files_of(s.take(i)) + files(s[i]),
        size_of(s.take(i + 1)) == size_of(s.take(i)) + size(s[i]),
{
    assert(s.take(i + 1) =~= s.take(i).push(s[i]));
    lemma_files_of_push(s.take(i), s[i]);
}

/// A search that finds nothing changes nothing.
pub proof fn lemma_toggled_at_not_found(n: SNode, p: Seq<char>)
    ensures
        !toggled_at(n, p).1 ==> toggled_at(n, p).0 == n,
        !expand_toggled_at(n, p).1 ==> expand_toggled_at(n, p).0 == n,
    decreases n, 0nat,
{
    match n {
        SNode::File(_) => {},
        SNode::Folder { children, .. } => {
            lemma_toggled_at_from_not_found(children, p, 0);
        },
    }
}

pub proof fn lemma_toggled_at_from_not_found(s: Seq<SNode>, p: Seq<char>, i: int)
    ensures
        !toggled_at_from(s, p, i).1 ==> toggled_at_from(s, p, i).0 == s,
        !expand_toggled_at_from(s, p, i).1 ==> expand_toggled_at_from(s, p, i).0 == s,
    decreases s, s.len() - i,
{
    if 0 <= i < s.len() {
        lemma_toggled_at_not_found(s[i], p);
        lemma_toggled_at_from_not_found(s, p, i + 1);
    }
}

pub proof fn lemma_first_folder_from(s: Seq<SNode>, name: Seq<char>, i: int)
    requires
        0 <= i,
    ensures
        first_folder_from(s, name, i) == -1 || (i <= first_folder_from(s, name, i) < s.len()
            && s[first_folder_from(s, name, i)] is Folder && s[first_folder_from(s, name, i)].name()
            == name),
        forall|j: int|
            i <= j < s.len() && (first_folder_from(s, name, i) == -1 || j < first_folder_from(
                s,
                name,
                i,
            )) ==> !(s[j] is Folder && #[trigger] s[j].name() == name),
    decreases s.len() - i,
{
    if i < s.len() {
        lemma_first_folder_from(s, name, i + 1);
    }
}

pub proof fn lemma_insert_pos_bound(t: Seq<SNode>, x: SNode, i: int)
    requires
        0 <= i,
    ensures
        i <= insert_pos_from(t, x, i) <= t.len() || (i > t.len() && insert_pos_from(t, x, i) == t.len()),
        0 <= insert_pos_from(t, x, i) <= t.len(),
    decreases t.len() - i,
{
    if i < t.len() {
        lemma_insert_pos_bound(t, x, i + 1);
    }
}

pub proof fn lemma_take_push<A>(s: Seq<A>, i: int)
    requires
        0 <= i < s.len(),
    ensures
        s.take(i + 1) == s.take(i).push(s[i]),
        s.take(i + 1).subrange(0, i) == s.take(i),
        s.take(i + 1)[i] == s[i],
{
    assert(s.take(i + 1) =~= s.take(i).push(s[i]));
    assert(s.take(i + 1).subrange(0, i) =~= s.take(i));
}

pub proof fn lemma_files_of_add(a: Seq<SNode>, b: Seq<SNode>)
    ensures
        files_of(a + b) == files_of(a) + files_of(b),
        size_of(a + b) == size_of(a) + size_of(b),
    decreases b.len(),
{
    if b.len() == 0 {
        assert(a + b =~= a);
        assert(files_of(a) + files_of(b) =~= files_of(a));
    } else {
        let bl = b.subrange(0, b.len() - 1);
        lemma_files_of_add(a, bl);
        assert((a + b).subrange(0, (a + b).len() - 1) =~= a + bl);
        assert((a + b)[(a + b).len() - 1] == b[b.len() - 1]);
        assert(files_of(a) + files_of(b) =~= files_of(a) + files_of(bl) + files(b[b.len() - 1]));
    }
}

pub proof fn lemma_files_of_split(s: Seq<SNode>, i: int)
    requires
        0 <= i <= s.len(),
    ensures
        files_of(s) == files_of(s.take(i)) + files_of(s.skip(i)),
        size_of(s) == size_of(s.take(i)) + size_of(s.skip(i)),
{
    assert(s =~= s.take(i) + s.skip(i));
    lemma_files_of_add(s.take(i), s.skip(i));
}

pub proof fn lemma_size_of_child(s: Seq<SNode>, i: int)
    requires
        0 <= i < s.len(),
    ensures
        size(s[i]) <= size_of(s),
        files(s[i]).len() <= files_of(s).len(),
{
    lemma_files_of_split(s, i);
    lemma_files_of_take(s, i);
    lemma_files_of_split(s, i + 1);
    assert(s.take(i + 1).take(i) =~= s.take(i));
}

pub proof fn lemma_height_of_child(s: Seq<SNode>, i: int)
    requires
        0 <= i < s.len(),
    ensures
        height(s[i]) <= height_of(s),
    decreases s.len(),
{
    if i < s.len() - 1 {
        let t = s.subrange(0, s.len() - 1);
        lemma_height_of_child(t, i);
    }
}

pub proof fn lemma_count_single(f: SFile)
    ensures
        count_checked(seq![f]) == if f.checked { 1nat } else { 0nat },
        count_selectable(seq![f]) == if f.state != FileState::Deleted { 1nat } else { 0nat },
        checked_paths(seq![f]) == if f.checked { seq![f.path] } else { Seq::<Seq<char>>::empty() },
{
    assert(seq![f].drop_last() =~= Seq::<SFile>::empty());
    assert(seq![f].last() == f);
    assert(count_checked(Seq::<SFile>::empty()) == 0);
    assert(count_selectable(Seq::<SFile>::empty()) == 0);
    assert(checked_paths(Seq::<SFile>::empty()) =~= Seq::<Seq<char>>::empty());
    assert(checked_paths(seq![f]) =~= if f.checked { seq![f.path] } else { Seq::<Seq<char>>::empty() });
}

pub proof fn lemma_count_le_len(fs: Seq<SFile>)
    ensures
        count_checked(fs) <= fs.len(),
        count_selectable(fs) <= fs.len(),
    decreases fs.len(),
{
    if fs.len() > 0 {
        lemma_count_le_len(fs.drop_last());
    }
}

pub proof fn lemma_count_add(a: Seq<SFile>, b: Seq<SFile>)
    ensures
        count_checked(a + b) == count_checked(a) + count_checked(b),
        count_selectable(a + b) == count_selectable(a) + count_selectable(b),
        checked_paths(a + b) == checked_paths(a) + checked_paths(b),
    decreases b.len(),
{
    if b.len() == 0 {
        assert(a + b =~= a);
        assert(checked_paths(a) + checked_paths(b) =~= checked_paths(a));
    } else {
        lemma_count_add(a, b.drop_last());
        assert((a + b).drop_last() =~= a + b.drop_last());
        assert((a + b).last() == b.last());
        assert(checked_paths(a + b) =~= checked_paths(a) + checked_paths(b));
    }
}

} // verus!
