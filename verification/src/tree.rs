//! The tree of differing files that the user browses and ticks.

use vstd::prelude::*;

use crate::build_laws::{
    all_expanded, entry_files, lemma_build_facts, stands_for, tree_sorted, valid_entries,
};
use crate::build_shape::all_shaped;
use crate::diff::{DiffEntry, FileState};
use crate::tree_laws::{flag_paths, folder_flags, law_file_toggle_flips, no_deleted_checked};
use crate::text::{
    distinct_paths, is_rooted, join_key_of, lemma_texts_of_push, lists_path, path_eq, path_key_of,
    same_path, text_eq, text_less, texts_of,
};
use crate::tree_model::{
    all_with_checked, all_with_collapsed, checked_paths, collapsed, collapsed_of, count_checked,
    count_selectable, display, display_of, entry_file, expand_toggled_at,
    expand_toggled_at_from, file_paths, files, files_of, filler_node, first_folder_from,
    global_label, has_name, height, height_of, insert_pos_from, inserted, inserted_all,
    lemma_count_add, lemma_count_le_len, lemma_count_single, lemma_files_of_split,
    lemma_files_of_take, lemma_first_folder_from, lemma_height_of_child, lemma_insert_pos_bound,
    lemma_size_of_child, lemma_take_push, lemma_toggled_at_not_found, merged, merged_all,
    node_lt, opt_text, paths_at, paths_at_from, root_path, size, size_of, sorted_forest,
    sorted_level, sorted_node, sorted_nodes, toggled, toggled_at, toggled_at_from, with_checked,
    with_collapsed, wrapped, SEntry, SFile, SItem, SNode,
};

verus! {

/// A node in the diff tree — either a file or a folder.
#[derive(Debug)]
pub enum TreeNode {
    File(TreeFile),
    Folder(TreeFolder),
}

/// A file node.
#[derive(Debug, Clone)]
pub struct TreeFile {
    pub name: String,
    pub path: String,
    pub state: FileState,
    pub checked: bool,
    /// Matches a `.reesyncignore` pattern - rendered dimmed and pre-unchecked.
    pub ignored: bool,
    /// Last commit info from template repo: "abc1234 2026-06-15 Fix message"
    pub commit_info: Option<String>,
}

/// A folder node with children.
#[derive(Debug)]
pub struct TreeFolder {
    pub name: String,
    pub path: String,
    pub children: Vec<TreeNode>,
    pub expanded: bool,
}

/// A display-ready item for the TUI list.
#[derive(Debug, Clone)]
pub struct DisplayItem {
    pub path: String,
    pub depth: usize,
    pub label: String,
    pub is_folder: bool,
    pub is_expanded: bool,
    pub state: FileState,
    pub checked: bool,
    /// Matches a `.reesyncignore` pattern (files only; always false for folders).
    pub ignored: bool,
    /// For folders: total number of descendant files
    pub total_count: usize,
    /// For folders: number of descendant files that can be selected (not deleted)
    pub selectable_count: usize,
    /// For folders: number of checked descendant files
    pub checked_count: usize,
    /// Last commit info from template repo: "abc1234 2026-06-15 Fix message"
    pub commit_info: Option<String>,
}

impl View for TreeFile {
    type V = SFile;

    open spec fn view(&self) -> SFile {
        SFile {
            name: self.name@,
            path: self.path@,
            state: self.state,
            checked: self.checked,
            ignored: self.ignored,
            commit_info: opt_text(self.commit_info),
        }
    }
}

impl View for DisplayItem {
    type V = SItem;

    open spec fn view(&self) -> SItem {
        SItem {
            path: self.path@,
            depth: self.depth as int,
            label: self.label@,
            is_folder: self.is_folder,
            is_expanded: self.is_expanded,
            state: self.state,
            checked: self.checked,
            ignored: self.ignored,
            total_count: self.total_count as int,
            selectable_count: self.selectable_count as int,
            checked_count: self.checked_count as int,
            commit_info: opt_text(self.commit_info),
        }
    }
}

/// The model of a node.
pub open spec fn node_view(n: TreeNode) -> SNode
    decreases n,
{
    match n {
        TreeNode::File(f) => SNode::File(f@),
        TreeNode::Folder(d) => SNode::Folder {
            name: d.name@,
            path: d.path@,
            children: nodes_view(d.children@),
            expanded: d.expanded,
        },
    }
}

/// The models of a list of nodes.
pub open spec fn nodes_view(s: Seq<TreeNode>) -> Seq<SNode>
    decreases s,
{
    Seq::new(
        s.len(),
        |i: int|
            if 0 <= i < s.len() {
                node_view(s[i])
            } else {
                SNode::File(
                    SFile {
                        name: Seq::empty(),
                        path: Seq::empty(),
                        state: FileState::New,
                        checked: false,
                        ignored: false,
                        commit_info: None,
                    },
                )
            },
    )
}

pub proof fn lemma_nodes_view_subrange(v: Seq<TreeNode>, a: int, b: int)
    requires
        0 <= a <= b <= v.len(),
    ensures
        nodes_view(v.subrange(a, b)) == nodes_view(v).subrange(a, b),
{
    assert(nodes_view(v.subrange(a, b)) =~= nodes_view(v).subrange(a, b));
}

pub proof fn lemma_nodes_view_insert(v: Seq<TreeNode>, i: int, x: TreeNode)
    requires
        0 <= i <= v.len(),
    ensures
        nodes_view(v.insert(i, x)) == nodes_view(v).insert(i, x@),
{
    assert(nodes_view(v.insert(i, x)) =~= nodes_view(v).insert(i, x@));
}

impl View for TreeNode {
    type V = SNode;

    open spec fn view(&self) -> SNode {
        node_view(*self)
    }
}

/// A copy of a file node.
fn copy_file(f: &TreeFile) -> (res: TreeFile)
    ensures
        res@ == f@,
{
    TreeFile {
        name: f.name.clone(),
        path: f.path.clone(),
        state: f.state,
        checked: f.checked,
        ignored: f.ignored,
        commit_info: clone_opt_text(&f.commit_info),
    }
}

/// A copy of a folder node, its children copied in turn.
fn copy_folder(d: &TreeFolder) -> (res: TreeFolder)
    ensures
        res.name@ == d.name@,
        res.path@ == d.path@,
        nodes_view(res.children@) == nodes_view(d.children@),
        res.expanded == d.expanded,
    decreases d, 1nat,
{
    let mut children: Vec<TreeNode> = Vec::new();
    let mut i: usize = 0;
    while i < d.children.len()
        invariant
            i <= d.children.len(),
            nodes_view(children@) == nodes_view(d.children@.take(i as int)),
        decreases d.children.len() - i,
    {
        let c = copy_node(&d.children[i]);
        proof {
            assert(nodes_view(children@.push(c)) =~= nodes_view(children@).push(c@));
            assert(nodes_view(d.children@.take(i as int + 1)) =~= nodes_view(
                d.children@.take(i as int),
            ).push(d.children@[i as int]@));
        }
        children.push(c);
        i += 1;
    }
    assert(d.children@.take(i as int) =~= d.children@);
    TreeFolder {
        name: d.name.clone(),
        path: d.path.clone(),
        children,
        expanded: d.expanded,
    }
}

/// A copy of a node and everything below it.
fn copy_node(n: &TreeNode) -> (res: TreeNode)
    ensures
        res@ == n@,
    decreases n, 0nat,
{
    match n {
        TreeNode::File(f) => TreeNode::File(copy_file(f)),
        TreeNode::Folder(d) => TreeNode::Folder(copy_folder(d)),
    }
}

impl Clone for TreeNode {
    fn clone(&self) -> (res: Self)
        ensures
            res@ == self@,
    {
        copy_node(self)
    }
}

impl Clone for TreeFolder {
    fn clone(&self) -> (res: Self)
        ensures
            res.name@ == self.name@,
            res.path@ == self.path@,
            nodes_view(res.children@) == nodes_view(self.children@),
            res.expanded == self.expanded,
    {
        copy_folder(self)
    }
}

impl TreeNode {
    /// The node's name.
    pub fn name(&self) -> (res: &str)
        ensures
            res@ == self@.name(),
    {
        match self {
            TreeNode::File(f) => f.name.as_str(),
            TreeNode::Folder(d) => d.name.as_str(),
        }
    }

    /// The node's path.
    pub fn path(&self) -> (res: &str)
        ensures
            res@ == self@.path(),
    {
        match self {
            TreeNode::File(f) => f.path.as_str(),
            TreeNode::Folder(d) => d.path.as_str(),
        }
    }

    /// Whether the node is a folder.
    pub fn is_folder(&self) -> (res: bool)
        ensures
            res == self@ is Folder,
    {
        match self {
            TreeNode::Folder(_) => true,
            TreeNode::File(_) => false,
        }
    }

    /// Get the total count of items (files only, not intermediate nodes).
    pub fn file_count(&self) -> (res: usize)
        requires
            files(self@).len() <= usize::MAX,
        ensures
            res == files(self@).len(),
        decreases size(self@),
    {
        match self {
            TreeNode::File(_) => 1,
            TreeNode::Folder(d) => {
                let ghost kids = self@.children();
                let mut total: usize = 0;
                let mut i: usize = 0;
                while i < d.children.len()
                    invariant
                        kids == nodes_view(d.children@),
                        size(self@) == 1 + size_of(kids),
                        files_of(kids).len() <= usize::MAX,
                        i <= d.children.len(),
                        total == files_of(kids.take(i as int)).len(),
                    decreases d.children.len() - i,
                {
                    proof {
                        lemma_files_of_take(kids, i as int);
                        lemma_files_of_split(kids, i as int + 1);
                        lemma_size_of_child(kids, i as int);
                    }
                    let c = d.children[i].file_count();
                    total = total + c;
                    i += 1;
                }
                proof {
                    assert(kids.take(i as int) =~= kids);
                }
                total
            },
        }
    }

    /// Get the number of files that can be selected for syncing.
    pub fn selectable_file_count(&self) -> (res: usize)
        requires
            files(self@).len() <= usize::MAX,
        ensures
            res == count_selectable(files(self@)),
        decreases size(self@),
    {
        match self {
            TreeNode::File(f) => {
                proof {
                    lemma_count_single(f@);
                }
                if f.state != FileState::Deleted {
                    1
                } else {
                    0
                }
            },
            TreeNode::Folder(d) => {
                let ghost kids = self@.children();
                let mut total: usize = 0;
                let mut i: usize = 0;
                while i < d.children.len()
                    invariant
                        kids == nodes_view(d.children@),
                        size(self@) == 1 + size_of(kids),
                        files_of(kids).len() <= usize::MAX,
                        i <= d.children.len(),
                        total == count_selectable(files_of(kids.take(i as int))),
                    decreases d.children.len() - i,
                {
                    proof {
                        lemma_files_of_take(kids, i as int);
                        lemma_files_of_split(kids, i as int + 1);
                        lemma_size_of_child(kids, i as int);
                        lemma_count_add(files_of(kids.take(i as int)), files(kids[i as int]));
                        lemma_count_le_len(files_of(kids.take(i as int + 1)));
                    }
                    let c = d.children[i].selectable_file_count();
                    total = total + c;
                    i += 1;
                }
                proof {
                    assert(kids.take(i as int) =~= kids);
                }
                total
            },
        }
    }

    /// Get the count of checked files.
    pub fn checked_count(&self) -> (res: usize)
        requires
            files(self@).len() <= usize::MAX,
        ensures
            res == count_checked(files(self@)),
        decreases size(self@),
    {
        match self {
            TreeNode::File(f) => {
                proof {
                    lemma_count_single(f@);
                }
                if f.checked {
                    1
                } else {
                    0
                }
            },
            TreeNode::Folder(d) => {
                let ghost kids = self@.children();
                let mut total: usize = 0;
                let mut i: usize = 0;
                while i < d.children.len()
                    invariant
                        kids == nodes_view(d.children@),
                        size(self@) == 1 + size_of(kids),
                        files_of(kids).len() <= usize::MAX,
                        i <= d.children.len(),
                        total == count_checked(files_of(kids.take(i as int))),
                    decreases d.children.len() - i,
                {
                    proof {
                        lemma_files_of_take(kids, i as int);
                        lemma_files_of_split(kids, i as int + 1);
                        lemma_size_of_child(kids, i as int);
                        lemma_count_add(files_of(kids.take(i as int)), files(kids[i as int]));
                        lemma_count_le_len(files_of(kids.take(i as int + 1)));
                    }
                    let c = d.children[i].checked_count();
                    total = total + c;
                    i += 1;
                }
                proof {
                    assert(kids.take(i as int) =~= kids);
                }
                total
            },
        }
    }

    /// Toggle this node's checked state.
    /// For files: toggle individual.
    /// For folders: toggle all children to match folder's desired state.
    pub fn toggle(&mut self)
        requires
            files(old(self)@).len() <= usize::MAX,
        ensures
            final(self)@ == toggled(old(self)@),
            old(self)@ is File && files(old(self)@)[0].state != FileState::Deleted ==> files(
                final(self)@,
            ) == seq![SFile { checked: !files(old(self)@)[0].checked, ..files(old(self)@)[0] }],
    {
        proof {
            if let SNode::File(f) = old(self)@ {
                if f.state != FileState::Deleted {
                    law_file_toggle_flips(f);
                }
            }
        }
        if self.is_folder() {
            let total = self.selectable_file_count();
            let checked = self.checked_count();
            // If any are unchecked → check all; if all checked → uncheck all
            self.set_checked(checked < total);
        } else {
            match self {
                TreeNode::File(f) => {
                    if f.state != FileState::Deleted {
                        f.checked = !f.checked;
                    }
                },
                TreeNode::Folder(_) => {},
            }
        }
    }

    /// Recursively set checked state (for folder propagation).
    pub fn set_checked(&mut self, checked: bool)
        ensures
            final(self)@ == with_checked(old(self)@, checked),
        decreases size(old(self)@),
    {
        match self {
            TreeNode::File(f) => {
                if f.state != FileState::Deleted {
                    f.checked = checked;
                }
            },
            TreeNode::Folder(d) => {
                let ghost kids = old(self)@.children();
                let ghost d0 = *d;
                assert(old(self)@ == node_view(TreeNode::Folder(d0)));
                let n = d.children.len();
                let mut i: usize = 0;
                while i < n
                    invariant
                        kids == nodes_view(d0.children@),
                        old(self)@ == node_view(TreeNode::Folder(d0)),
                        size(old(self)@) == 1 + size_of(kids),
                        n == d.children.len(),
                        n == kids.len(),
                        i <= n,
                        d.name == d0.name,
                        d.path == d0.path,
                        d.expanded == d0.expanded,
                        forall|j: int| 0 <= j < i ==> node_view(#[trigger] d.children@[j]) == with_checked(kids[j], checked),
                        forall|j: int| i <= j < n ==> #[trigger] d.children@[j] == d0.children@[j],
                    decreases n - i,
                {
                    proof {
                        lemma_size_of_child(kids, i as int);
                    }
                    d.children[i].set_checked(checked);
                    assert(node_view(d.children@[i as int]) == with_checked(kids[i as int], checked));
                    i += 1;
                }
                proof {
                    assert(nodes_view(d.children@) =~= all_with_checked(kids, checked));
                }
            },
        }
    }

    /// Record the collapsed folders (path -> not expanded) into `out`. Used to
    /// preserve expand/collapse state across a tree rebuild (e.g. after an `i`
    /// toggle re-diffs); folders default to expanded, so we only track the ones
    /// the user explicitly collapsed.
    pub fn collect_collapsed(&self, out: &mut Vec<String>)
        ensures
            texts_of(final(out)@) == texts_of(old(out)@) + collapsed(self@),
        decreases size(self@),
    {
        match self {
            TreeNode::File(_) => {
                assert(texts_of(old(out)@) + collapsed(self@) =~= texts_of(old(out)@));
            },
            TreeNode::Folder(d) => {
                let ghost kids = self@.children();
                let ghost start = texts_of(old(out)@) + (if !d.expanded {
                    seq![d.path@]
                } else {
                    Seq::<Seq<char>>::empty()
                });
                if !d.expanded {
                    proof {
                        lemma_texts_of_push(out@, d.path);
                    }
                    out.push(d.path.clone());
                } else {
                    assert(texts_of(out@) =~= start);
                }
                let mut i: usize = 0;
                while i < d.children.len()
                    invariant
                        kids == nodes_view(d.children@),
                        size(self@) == 1 + size_of(kids),
                        i <= d.children.len(),
                        texts_of(out@) == start + collapsed_of(kids.take(i as int)),
                    decreases d.children.len() - i,
                {
                    proof {
                        lemma_size_of_child(kids, i as int);
                        lemma_take_push(kids, i as int);
                    }
                    d.children[i].collect_collapsed(out);
                    assert(texts_of(out@) =~= start + collapsed_of(kids.take(i as int + 1)));
                    i += 1;
                }
                proof {
                    assert(kids.take(i as int) =~= kids);
                }
            },
        }
    }

    /// Re-collapse the folders whose paths are in `collapsed`, restoring state
    /// captured by `collect_collapsed` after a rebuild.
    pub fn apply_collapsed(&mut self, collapsed: &[String])
        ensures
            final(self)@ == with_collapsed(old(self)@, texts_of(collapsed@)),
        decreases size(old(self)@),
    {
        match self {
            TreeNode::File(_) => {},
            TreeNode::Folder(d) => {
                let ghost kids = old(self)@.children();
                let ghost d0 = *d;
                if contains_path(collapsed, d.path.as_str()) {
                    d.expanded = false;
                }
                let n = d.children.len();
                let mut i: usize = 0;
                while i < n
                    invariant
                        kids == nodes_view(d0.children@),
                        size(old(self)@) == 1 + size_of(kids),
                        n == d.children.len(),
                        n == kids.len(),
                        i <= n,
                        d.name == d0.name,
                        d.path == d0.path,
                        d.expanded == if lists_path(texts_of(collapsed@), d0.path@) {
                            false
                        } else {
                            d0.expanded
                        },
                        forall|j: int|
                            0 <= j < i ==> node_view(#[trigger] d.children@[j]) == with_collapsed(
                                kids[j],
                                texts_of(collapsed@),
                            ),
                        forall|j: int| i <= j < n ==> #[trigger] d.children@[j] == d0.children@[j],
                    decreases n - i,
                {
                    proof {
                        lemma_size_of_child(kids, i as int);
                    }
                    d.children[i].apply_collapsed(collapsed);
                    assert(node_view(d.children@[i as int]) == with_collapsed(
                        kids[i as int],
                        texts_of(collapsed@),
                    ));
                    i += 1;
                }
                proof {
                    assert(nodes_view(d.children@) =~= all_with_collapsed(kids, texts_of(collapsed@)));
                }
            },
        }
    }

    /// Collect every descendant file path (regardless of checked state).
    pub fn collect_all_file_paths(&self, paths: &mut Vec<String>)
        ensures
            texts_of(final(paths)@) == texts_of(old(paths)@) + file_paths(files(self@)),
        decreases size(self@),
    {
        match self {
            TreeNode::File(f) => {
                proof {
                    lemma_texts_of_push(paths@, f.path);
                }
                paths.push(f.path.clone());
                assert(file_paths(files(self@)) =~= seq![f.path@]);
            },
            TreeNode::Folder(d) => {
                let ghost kids = self@.children();
                let ghost start = texts_of(old(paths)@);
                let mut i: usize = 0;
                while i < d.children.len()
                    invariant
                        kids == nodes_view(d.children@),
                        size(self@) == 1 + size_of(kids),
                        i <= d.children.len(),
                        texts_of(paths@) == start + file_paths(files_of(kids.take(i as int))),
                    decreases d.children.len() - i,
                {
                    proof {
                        lemma_size_of_child(kids, i as int);
                        lemma_files_of_take(kids, i as int);
                    }
                    d.children[i].collect_all_file_paths(paths);
                    assert(texts_of(paths@) =~= start + file_paths(files_of(kids.take(i as int + 1))));
                    i += 1;
                }
                proof {
                    assert(kids.take(i as int) =~= kids);
                }
            },
        }
    }

    /// All descendant file paths under the node at `path`. Used by folder-level
    /// `i`: collect every file under the highlighted folder so they can be
    /// ignored/un-ignored as a group. Empty if `path` is not found.
    pub fn file_paths_at(&self, path: &str) -> (res: Vec<String>)
        ensures
            texts_of(res@) == paths_at(self@, path@),
        decreases size(self@),
    {
        if path_eq(self.path(), path) {
            let mut out = Vec::new();
            self.collect_all_file_paths(&mut out);
            assert(texts_of(Seq::<String>::empty()) =~= Seq::<Seq<char>>::empty());
            assert(texts_of(out@) =~= paths_at(self@, path@));
            return out;
        }
        match self {
            TreeNode::File(_) => {},
            TreeNode::Folder(d) => {
                let ghost kids = self@.children();
                let mut i: usize = 0;
                while i < d.children.len()
                    invariant
                        kids == nodes_view(d.children@),
                        size(self@) == 1 + size_of(kids),
                        i <= d.children.len(),
                        paths_at(self@, path@) == paths_at_from(kids, path@, i as int),
                    decreases d.children.len() - i,
                {
                    proof {
                        lemma_size_of_child(kids, i as int);
                    }
                    let found = d.children[i].file_paths_at(path);
                    if found.len() > 0 {
                        return found;
                    }
                    i += 1;
                }
            },
        }
        let empty = Vec::new();
        assert(texts_of(empty@) =~= paths_at(self@, path@));
        empty
    }

    /// Collect file paths that are checked, recursively.
    pub fn collect_checked_paths(&self, paths: &mut Vec<String>)
        ensures
            texts_of(final(paths)@) == texts_of(old(paths)@) + checked_paths(files(self@)),
        decreases size(self@),
    {
        match self {
            TreeNode::File(f) => {
                proof {
                    lemma_count_single(f@);
                }
                if f.checked {
                    proof {
                        lemma_texts_of_push(paths@, f.path);
                    }
                    paths.push(f.path.clone());
                } else {
                    assert(texts_of(paths@) + checked_paths(files(self@)) =~= texts_of(paths@));
                }
            },
            TreeNode::Folder(d) => {
                let ghost kids = self@.children();
                let ghost start = texts_of(old(paths)@);
                let mut i: usize = 0;
                while i < d.children.len()
                    invariant
                        kids == nodes_view(d.children@),
                        size(self@) == 1 + size_of(kids),
                        i <= d.children.len(),
                        texts_of(paths@) == start + checked_paths(files_of(kids.take(i as int))),
                    decreases d.children.len() - i,
                {
                    proof {
                        lemma_size_of_child(kids, i as int);
                        lemma_files_of_take(kids, i as int);
                        lemma_count_add(files_of(kids.take(i as int)), files(kids[i as int]));
                    }
                    d.children[i].collect_checked_paths(paths);
                    assert(texts_of(paths@) =~= start + checked_paths(files_of(kids.take(i as int + 1))));
                    i += 1;
                }
                proof {
                    assert(kids.take(i as int) =~= kids);
                }
            },
        }
    }

    /// Navigate to a specific path and toggle its expanded state (for folders).
    pub fn toggle_expand_at(&mut self, path: &str) -> (found: bool)
        ensures
            (final(self)@, found) == expand_toggled_at(old(self)@, path@),
        decreases size(old(self)@),
    {
        match self {
            TreeNode::File(_) => false,
            TreeNode::Folder(d) => {
                if path_eq(d.path.as_str(), path) {
                    d.expanded = !d.expanded;
                    return true;
                }
                let ghost kids = old(self)@.children();
                let ghost d0 = *d;
                assert(old(self)@ == node_view(TreeNode::Folder(d0)));
                let n = d.children.len();
                let mut i: usize = 0;
                let mut found = false;
                while i < n && !found
                    invariant
                        kids == nodes_view(d0.children@),
                        size(old(self)@) == 1 + size_of(kids),
                        n == d.children.len(),
                        n == kids.len(),
                        i <= n,
                        d.name == d0.name,
                        d.path == d0.path,
                        d.expanded == d0.expanded,
                        !found ==> nodes_view(d.children@) == kids,
                        !found ==> expand_toggled_at_from(kids, path@, 0)
                            == expand_toggled_at_from(kids, path@, i as int),
                        found ==> expand_toggled_at_from(kids, path@, 0) == (
                            nodes_view(d.children@),
                            true,
                        ),
                    decreases n - i,
                {
                    proof {
                        lemma_size_of_child(kids, i as int);
                        lemma_toggled_at_not_found(kids[i as int], path@);
                    }
                    found = d.children[i].toggle_expand_at(path);
                    proof {
                        if found {
                            assert(nodes_view(d.children@) =~= kids.update(
                                i as int,
                                expand_toggled_at(kids[i as int], path@).0,
                            ));
                        } else {
                            assert(nodes_view(d.children@) =~= kids);
                        }
                    }
                    i += 1;
                }
                found
            },
        }
    }

    /// Toggle checked state at a specific path.
    pub fn toggle_at(&mut self, path: &str) -> (found: bool)
        requires
            files(old(self)@).len() <= usize::MAX,
        ensures
            (final(self)@, found) == toggled_at(old(self)@, path@),
        decreases size(old(self)@),
    {
        if path_eq(self.path(), path) {
            self.toggle();
            return true;
        }
        match self {
            TreeNode::File(_) => false,
            TreeNode::Folder(d) => {
                let ghost kids = old(self)@.children();
                let ghost d0 = *d;
                assert(old(self)@ == node_view(TreeNode::Folder(d0)));
                let n = d.children.len();
                let mut i: usize = 0;
                let mut found = false;
                while i < n && !found
                    invariant
                        kids == nodes_view(d0.children@),
                        size(old(self)@) == 1 + size_of(kids),
                        files(old(self)@) == files_of(kids),
                        files_of(kids).len() <= usize::MAX,
                        n == d.children.len(),
                        n == kids.len(),
                        i <= n,
                        d.name == d0.name,
                        d.path == d0.path,
                        d.expanded == d0.expanded,
                        !found ==> nodes_view(d.children@) == kids,
                        !found ==> toggled_at_from(kids, path@, 0) == toggled_at_from(
                            kids,
                            path@,
                            i as int,
                        ),
                        found ==> toggled_at_from(kids, path@, 0) == (
                            nodes_view(d.children@),
                            true,
                        ),
                    decreases n - i,
                {
                    proof {
                        lemma_size_of_child(kids, i as int);
                        lemma_toggled_at_not_found(kids[i as int], path@);
                    }
                    found = d.children[i].toggle_at(path);
                    proof {
                        if found {
                            assert(nodes_view(d.children@) =~= kids.update(
                                i as int,
                                toggled_at(kids[i as int], path@).0,
                            ));
                        } else {
                            assert(nodes_view(d.children@) =~= kids);
                        }
                    }
                    i += 1;
                }
                found
            },
        }
    }

    /// Flatten the tree into a display list for the TUI list widget.
    /// Only includes visible items (folders that are expanded show their children).
    /// The artificial root `/` at depth 0 is drawn as the GLOBAL row, and its
    /// children are always listed.
    pub fn flatten(&self, depth: usize, result: &mut Vec<DisplayItem>)
        requires
            depth + height(self@) <= usize::MAX,
            files(self@).len() <= usize::MAX,
        ensures
            item_views(final(result)@) == item_views(old(result)@) + display(self@, depth as int),
        decreases size(self@),
    {
        match self {
            TreeNode::File(f) => {
                let item = DisplayItem {
                    path: f.path.clone(),
                    depth,
                    label: f.name.clone(),
                    is_folder: false,
                    is_expanded: false,
                    state: f.state,
                    checked: f.checked,
                    ignored: f.ignored,
                    total_count: 0,
                    selectable_count: 0,
                    checked_count: 0,
                    commit_info: clone_opt_text(&f.commit_info),
                };
                proof {
                    lemma_item_views_push(result@, item);
                }
                result.push(item);
            },
            TreeNode::Folder(d) => {
                let ghost kids = self@.children();
                let total = self.file_count();
                let selectable = self.selectable_file_count();
                let checked = self.checked_count();
                let global = depth == 0 && is_root_text(d.path.as_str());
                let item = DisplayItem {
                    path: d.path.clone(),
                    depth,
                    label: if global {
                        global_label_text()
                    } else {
                        d.name.clone()
                    },
                    is_folder: true,
                    is_expanded: if global {
                        false
                    } else {
                        d.expanded
                    },
                    state: FileState::Modified,
                    checked: checked > 0,
                    ignored: false,
                    total_count: total,
                    selectable_count: selectable,
                    checked_count: checked,
                    commit_info: None,
                };
                proof {
                    lemma_item_views_push(result@, item);
                }
                result.push(item);
                let ghost start = item_views(result@);
                if global || d.expanded {
                    let mut i: usize = 0;
                    while i < d.children.len()
                        invariant
                            kids == nodes_view(d.children@),
                            size(self@) == 1 + size_of(kids),
                            height(self@) == 1 + height_of(kids),
                            files_of(kids).len() <= usize::MAX,
                            depth + 1 + height_of(kids) <= usize::MAX,
                            i <= d.children.len(),
                            item_views(result@) == start + display_of(kids.take(i as int), depth + 1),
                        decreases d.children.len() - i,
                    {
                        proof {
                            lemma_size_of_child(kids, i as int);
                            lemma_height_of_child(kids, i as int);
                            lemma_take_push(kids, i as int);
                        }
                        d.children[i].flatten(depth + 1, result);
                        assert(item_views(result@) =~= start + display_of(
                            kids.take(i as int + 1),
                            depth + 1,
                        ));
                        i += 1;
                    }
                    proof {
                        assert(kids.take(i as int) =~= kids);
                    }
                } else {
                    assert(item_views(result@) =~= start + Seq::<SItem>::empty());
                }
            },
        }
    }

}

/// The models of the entries of a diff, as the tree sees them.
pub open spec fn entry_views(es: Seq<DiffEntry>) -> Seq<SEntry> {
    es.map_values(
        |e: DiffEntry|
            SEntry {
                path: e.relative_path@,
                state: e.state,
                ignored: e.ignored,
                commit_info: opt_text(e.commit_info),
            },
    )
}

/// The root's children for the entries: each entry inserted in turn, then
/// every list of children sorted.
fn build_children(entries: &[DiffEntry]) -> (res: Vec<TreeNode>)
    ensures
        nodes_view(res@) == sorted_forest(inserted_all(entry_views(entries@))),
{
    let mut root_children: Vec<TreeNode> = Vec::new();
    let mut i: usize = 0;
    while i < entries.len()
        invariant
            i <= entries.len(),
            nodes_view(root_children@) == inserted_all(entry_views(entries@).take(i as int)),
        decreases entries.len() - i,
    {
        let entry = &entries[i];
        proof {
            let t = entry_views(entries@).take(i as int + 1);
            assert(t.drop_last() =~= entry_views(entries@).take(i as int));
            assert(t.last() == entry_views(entries@)[i as int]);
        }
        insert_entry(
            &mut root_children,
            entry.relative_path.as_str(),
            entry.state,
            entry.ignored,
            clone_opt_text(&entry.commit_info),
        );
        i += 1;
    }
    proof {
        assert(entry_views(entries@).take(i as int) =~= entry_views(entries@));
    }
    // Sort: folders first, then by name
    let root_children = sort_children(root_children);
    root_children
}

/// Build a tree from a list of diff entries.
///
/// Groups entries by their parent directory, creating intermediate folder nodes.
/// Only Modified files start pre-checked. New files (template-only) start unchecked
/// since they may be files the user intentionally deleted from their project.
/// Deleted files are always unchecked and not toggleable.
pub fn build_tree(entries: &[DiffEntry]) -> (root: TreeNode)
    ensures
        root@ == (SNode::Folder {
            name: root_path(),
            path: root_path(),
            children: sorted_forest(inserted_all(entry_views(entries@))),
            expanded: true,
        }),
        forall|f: SFile|
            #[trigger] files(root@).contains(f) ==> exists|k: int|
                0 <= k < entries@.len() && f == entry_file(#[trigger] entry_views(entries@)[k]),
        forall|i: int|
            0 <= i < files(root@).len() ==> exists|k: int|
                0 <= k < entries@.len() && stands_for(
                    #[trigger] files(root@)[i],
                    entry_views(entries@)[k],
                ),
        valid_entries(entry_views(entries@)) ==> forall|k: int|
            0 <= k < entries@.len() ==> exists|i: int|
                0 <= i < files(root@).len() && stands_for(
                    files(root@)[i],
                    #[trigger] entry_views(entries@)[k],
                ),
        no_deleted_checked(files(root@)),
        tree_sorted(root@),
        all_expanded(root@),
        collapsed(root@).len() == 0,
        all_shaped(root@.children(), Seq::empty()),
        valid_entries(entry_views(entries@)) ==> files(root@).to_multiset() == entry_files(
            entry_views(entries@),
        ) && files(root@).len() == entries@.len() && file_paths(files(root@)).no_duplicates(),
        (forall|k: int| 0 <= k < entries@.len() ==> !is_rooted(#[trigger] entries@[k].relative_path@))
            ==> distinct_paths(flag_paths(folder_flags(root@))),
{
    let root_children = build_children(entries);
    proof {
        let es = entry_views(entries@);
        lemma_build_facts(es);
        assert forall|k: int| 0 <= k < entries@.len() implies #[trigger] es[k].path
            == entries@[k].relative_path@ by {}
    }
    TreeNode::Folder(
        TreeFolder {
            name: root_path_text(),
            path: root_path_text(),
            children: root_children,
            expanded: true,
        },
    )
}

/// The path (and name) of the artificial root.
fn root_path_text() -> (res: String)
    ensures
        res@ == root_path(),
{
    proof {
        reveal_strlit("/");
        assert("/"@ =~= root_path());
    }
    "/".to_owned()
}

/// Insert a single diff entry into the tree, creating intermediate folder nodes as needed.
/// Preserves the full relative path in file nodes, even for nested files.
fn insert_entry(
    children: &mut Vec<TreeNode>,
    full_path: &str,
    state: FileState,
    ignored: bool,
    commit_info: Option<String>,
)
    ensures
        nodes_view(final(children)@) == inserted(
            nodes_view(old(children)@),
            SEntry { path: full_path@, state, ignored, commit_info: opt_text(commit_info) },
        ),
{
    let ghost e = SEntry { path: full_path@, state, ignored, commit_info: opt_text(commit_info) };
    let mut folder_components = path_key_of(full_path);
    let ghost cs = texts_of(folder_components@);
    let count = folder_components.len();
    if count == 0 {
        return;
    }
    let file_name = folder_components.pop().unwrap();
    proof {
        assert(texts_of(folder_components@) =~= cs.drop_last());
    }
    // Pre-check only Modified files (exist in both, content differs).
    // New files (template-only) start unchecked — they may be files
    // the user intentionally deleted from their project.
    // An ignored file is always pre-unchecked, whatever its state.
    let checked = state == FileState::Modified && !ignored;
    let file_node = TreeNode::File(
        TreeFile {
            name: file_name,
            path: full_path.to_owned(),
            state,
            checked,
            ignored,
            commit_info,
        },
    );
    assert(file_node@ == SNode::File(entry_file(e)));
    if count == 1 {
        // Root-level file
        children.push(file_node);
        assert(nodes_view(children@) =~= nodes_view(old(children)@).push(file_node@));
    } else {
        // Nested — wrap the file node in folder nodes with full-qualified paths
        let wrapped = wrap_in_folders(file_node, folder_components.as_slice());
        merge_into(children, wrapped);
    }
}

/// Wrap a tree node in nested folder nodes, from outermost to innermost.
/// Each folder node stores its FULL parent-qualified path (e.g., `"a/b/c"` not just `"c"`),
/// so `toggle_at` and `toggle_expand_at` correctly identify the right folder even when
/// same-named folders exist at different depths.
fn wrap_in_folders(node: TreeNode, folder_components: &[String]) -> (res: TreeNode)
    ensures
        res@ == wrapped(node@, texts_of(folder_components@), 0),
{
    let ghost fc = texts_of(folder_components@);
    let total = folder_components.len();
    let mut current = node;
    let mut i: usize = 0;
    while i < total
        invariant
            total == folder_components@.len(),
            fc == texts_of(folder_components@),
            i <= total,
            current@ == wrapped(node@, fc, total - i),
        decreases total - i,
    {
        let level = total - 1 - i;
        let name = folder_components[level].clone();
        // Build the full path: components[0 .. level + 1]
        let folder_path = join_key_of(folder_components, level + 1);
        let ghost inner = current@;
        let mut kids: Vec<TreeNode> = Vec::new();
        kids.push(current);
        assert(nodes_view(kids@) =~= seq![inner]);
        current = TreeNode::Folder(
            TreeFolder { name, path: folder_path, children: kids, expanded: true },
        );
        i += 1;
    }
    current
}
/// Index of the first folder named `name` among `children`, if any.
fn find_folder(children: &Vec<TreeNode>, name: &str) -> (res: Option<usize>)
    ensures
        match res {
            Some(k) => k as int == first_folder_from(nodes_view(children@), name@, 0),
            None => first_folder_from(nodes_view(children@), name@, 0) == -1,
        },
{
    let ghost s = nodes_view(children@);
    let mut i: usize = 0;
    while i < children.len()
        invariant
            s == nodes_view(children@),
            i <= children.len(),
            first_folder_from(s, name@, 0) == first_folder_from(s, name@, i as int),
        decreases children.len() - i,
    {
        if children[i].is_folder() && text_eq(children[i].name(), name) {
            return Some(i);
        }
        i += 1;
    }
    None
}

/// Whether some node among `children` is named `name`.
fn has_child_named(children: &Vec<TreeNode>, name: &str) -> (res: bool)
    ensures
        res == has_name(nodes_view(children@), name@),
{
    let ghost s = nodes_view(children@);
    let mut i: usize = 0;
    while i < children.len()
        invariant
            s == nodes_view(children@),
            i <= children.len(),
            forall|j: int| 0 <= j < i ==> s[j].name() != name@,
        decreases children.len() - i,
    {
        if text_eq(children[i].name(), name) {
            assert(s[i as int].name() == name@);
            return true;
        }
        i += 1;
    }
    false
}

/// Merge a tree node (or branch) into an existing children list,
/// joining at shared folder boundaries.
fn merge_into(children: &mut Vec<TreeNode>, node: TreeNode)
    ensures
        nodes_view(final(children)@) == merged(nodes_view(old(children)@), node@),
    decreases size(node@), 0nat,
{
    match node {
        TreeNode::Folder(new_folder) => {
            // Look for an existing folder with the same name
            match find_folder(children, new_folder.name.as_str()) {
                Some(k) => {
                    // Recurse into it with the new folder's children
                    let ghost s = nodes_view(children@);
                    proof {
                        lemma_first_folder_from(s, new_folder.name@, 0);
                    }
                    let existing = children.remove(k);
                    match existing {
                        TreeNode::Folder(mut existing_f) => {
                            let ghost e0 = existing_f;
                            proof {
                                assert(nodes_view(new_folder.children@) == node@.children());
                            }
                            merge_all_into(&mut existing_f.children, new_folder.children);
                            let ghost merged_node = TreeNode::Folder(existing_f);
                            children.insert(k, TreeNode::Folder(existing_f));
                            proof {
                                assert(nodes_view(children@) =~= s.update(k as int, merged_node@));
                            }
                        },
                        TreeNode::File(f) => {
                            // not reached: the index is that of a folder
                            children.insert(k, TreeNode::File(f));
                        },
                    }
                },
                None => {
                    let ghost s = nodes_view(children@);
                    children.push(TreeNode::Folder(new_folder));
                    proof {
                        assert(nodes_view(children@) =~= s.push(node@));
                    }
                },
            }
        },
        TreeNode::File(f) => {
            // Check if a file with same name exists; if so, skip (shouldn't happen)
            if !has_child_named(children, f.name.as_str()) {
                let ghost s = nodes_view(children@);
                children.push(TreeNode::File(f));
                proof {
                    assert(nodes_view(children@) =~= s.push(node@));
                }
            }
        },
    }
}

/// Merge every node of `nodes`, in order, into `children`.
fn merge_all_into(children: &mut Vec<TreeNode>, nodes: Vec<TreeNode>)
    ensures
        nodes_view(final(children)@) == merged_all(nodes_view(old(children)@), nodes_view(nodes@)),
    decreases size_of(nodes_view(nodes@)), 1nat,
{
    let ghost ns = nodes_view(nodes@);
    let ghost s0 = nodes_view(children@);
    let mut rest = nodes;
    let ghost mut k: int = 0;
    while rest.len() > 0
        invariant
            0 <= k <= ns.len(),
            nodes_view(rest@) == ns.skip(k),
            nodes_view(children@) == merged_all(s0, ns.take(k)),
            size_of(ns) == size_of(nodes_view(nodes@)),
        decreases rest.len(),
    {
        let ghost before = rest@;
        assert(nodes_view(before).len() == before.len());
        let c = rest.remove(0);
        proof {
            assert(nodes_view(before)[0] == c@);
            assert(c@ == ns[k]);
            assert(rest@ =~= before.subrange(1, before.len() as int));
            lemma_nodes_view_subrange(before, 1, before.len() as int);
            assert(nodes_view(rest@) =~= ns.skip(k + 1));
            lemma_size_of_child(ns, k);
            lemma_take_push(ns, k);
        }
        merge_into(children, c);
        proof {
            k = k + 1;
        }
    }
    proof {
        assert(ns.take(k) =~= ns);
    }
}

/// Whether `a` is listed before `b` among siblings: folders first, then by name.
fn node_less(a: &TreeNode, b: &TreeNode) -> (res: bool)
    ensures
        res == node_lt(a@, b@),
{
    match (a.is_folder(), b.is_folder()) {
        (true, false) => true,
        (false, true) => false,
        _ => text_less(a.name(), b.name()),
    }
}

/// Where `x` goes among the already sorted `sorted`.
fn insert_position(sorted: &Vec<TreeNode>, x: &TreeNode) -> (res: usize)
    ensures
        res as int == insert_pos_from(nodes_view(sorted@), x@, 0),
{
    let ghost t = nodes_view(sorted@);
    let mut i: usize = 0;
    while i < sorted.len()
        invariant
            t == nodes_view(sorted@),
            i <= sorted.len(),
            insert_pos_from(t, x@, 0) == insert_pos_from(t, x@, i as int),
        decreases sorted.len() - i,
    {
        if node_less(x, &sorted[i]) {
            return i;
        }
        i += 1;
    }
    i
}

/// A node with the children of every folder in it sorted.
fn sort_node_children(node: TreeNode) -> (res: TreeNode)
    ensures
        res@ == sorted_node(node@),
    decreases size(node@), 0nat,
{
    match node {
        TreeNode::File(f) => TreeNode::File(f),
        TreeNode::Folder(f) => {
            let TreeFolder { name, path, children, expanded } = f;
            let children = sort_children(children);
            TreeNode::Folder(TreeFolder { name, path, children, expanded })
        },
    }
}

/// Sort children: folders first, then files, alphabetically within each group.
fn sort_children(children: Vec<TreeNode>) -> (res: Vec<TreeNode>)
    ensures
        nodes_view(res@) == sorted_forest(nodes_view(children@)),
    decreases size_of(nodes_view(children@)), 1nat,
{
    let mut rest = children;
    let ghost s0 = nodes_view(rest@);
    let ghost mid = sorted_nodes(s0);
    let mut sorted: Vec<TreeNode> = Vec::new();
    let ghost mut k: int = 0;
    while rest.len() > 0
        invariant
            0 <= k <= s0.len(),
            s0 == nodes_view(children@),
            mid.len() == s0.len(),
            forall|j: int| 0 <= j < s0.len() ==> #[trigger] mid[j] == sorted_node(s0[j]),
            nodes_view(rest@) == s0.skip(k),
            nodes_view(sorted@) == sorted_level(mid.take(k)),
        decreases rest.len(),
    {
        let ghost before = rest@;
        assert(nodes_view(before).len() == before.len());
        let x = rest.remove(0);
        proof {
            assert(nodes_view(before)[0] == x@);
            assert(x@ == s0[k]);
            assert(rest@ =~= before.subrange(1, before.len() as int));
            lemma_nodes_view_subrange(before, 1, before.len() as int);
            assert(nodes_view(rest@) =~= s0.skip(k + 1));
            lemma_size_of_child(s0, k);
        }
        let x = sort_node_children(x);
        proof {
            let t = mid.take(k + 1);
            assert(t.drop_last() =~= mid.take(k));
            assert(t.last() == mid[k]);
        }
        let pos = insert_position(&sorted, &x);
        let ghost before_sorted = sorted@;
        proof {
            lemma_insert_pos_bound(nodes_view(sorted@), x@, 0);
        }
        sorted.insert(pos, x);
        proof {
            lemma_nodes_view_insert(before_sorted, pos as int, x);
            k = k + 1;
        }
    }
    proof {
        assert(mid.take(k) =~= mid);
    }
    sorted
}

/// The models of a list of display rows.
pub open spec fn item_views(s: Seq<DisplayItem>) -> Seq<SItem> {
    s.map_values(|x: DisplayItem| x@)
}

pub proof fn lemma_item_views_push(s: Seq<DisplayItem>, x: DisplayItem)
    ensures
        item_views(s.push(x)) == item_views(s).push(x@),
{
    assert(item_views(s.push(x)) =~= item_views(s).push(x@));
}

/// A copy of an optional text.
fn clone_opt_text(o: &Option<String>) -> (res: Option<String>)
    ensures
        opt_text(res) == opt_text(*o),
{
    match o {
        Some(s) => Some(s.clone()),
        None => None,
    }
}

/// Whether a path is that of the artificial root.
fn is_root_text(path: &str) -> (res: bool)
    ensures
        res == same_path(path@, root_path()),
{
    proof {
        reveal_strlit("/");
        assert("/"@ =~= root_path());
    }
    path_eq(path, "/")
}

/// The label of the GLOBAL row.
fn global_label_text() -> (res: String)
    ensures
        res@ == global_label(),
{
    proof {
        reveal_strlit("GLOBAL");
        assert("GLOBAL"@ =~= global_label());
    }
    "GLOBAL".to_owned()
}

/// Whether `needle` is, as a path, one of the paths of `list`.
fn contains_path(list: &[String], needle: &str) -> (res: bool)
    ensures
        res == lists_path(texts_of(list@), needle@),
{
    let mut i: usize = 0;
    while i < list.len()
        invariant
            i <= list.len(),
            forall|j: int| 0 <= j < i ==> !same_path(list@[j]@, needle@),
        decreases list.len() - i,
    {
        if path_eq(list[i].as_str(), needle) {
            assert(same_path(texts_of(list@)[i as int], needle@));
            return true;
        }
        i += 1;
    }
    proof {
        if lists_path(texts_of(list@), needle@) {
            let k = choose|k: int|
                0 <= k < texts_of(list@).len() && same_path(#[trigger] texts_of(list@)[k], needle@);
            assert(list@[k]@ == texts_of(list@)[k]);
        }
    }
    false
}

} // verus!
