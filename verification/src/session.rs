//! The state of the interactive browser and what each key does to it.
//!
//! Reading keys, drawing, writing `.reesyncignore` and re-walking the
//! directories are left to the caller; every decision is taken here.

use vstd::prelude::*;

use crate::ignore_list::{first_match_from, group_toggled, has_exact_line, no_glob_match, IgnoreList};
use crate::text::{lemma_texts_of_push, path_eq, same_path, texts_of};
use crate::tree::{item_views, DisplayItem, TreeNode};
use crate::tree_laws::{
    lemma_files_expand_toggled_at, lemma_files_toggled_at, lemma_files_with_collapsed,
    lemma_height_expand_toggled_at, lemma_height_toggled_at, lemma_height_with_collapsed,
    lemma_rechecked_keeps_no_deleted_checked, rechecked,
};
use crate::tree_model::{
    checked_paths, collapsed, display, expand_toggled_at, files, height, opt_text, paths_at,
    root_path, toggled_at, with_collapsed, SItem, SNode,
};

verus! {

/// The notice shown when `i` is pressed on a file a broader pattern ignores.
pub open spec fn glob_notice(g: Seq<char>) -> Seq<char> {
    "ignored by pattern '"@ + g + "' — edit .reesyncignore to change"@
}

/// The notice shown when `i` is pressed on a folder whose files are all
/// ignored by patterns.
pub open spec fn folder_notice() -> Seq<char> {
    "all files here are ignored by a pattern — edit .reesyncignore to change"@
}

/// The files `i` acts on for the row at `path`: every file below a folder,
/// or the file itself.
pub open spec fn ignore_targets(tree: SNode, path: Seq<char>, is_folder: bool) -> Seq<Seq<char>> {
    if is_folder {
        paths_at(tree, path)
    } else {
        seq![path]
    }
}

/// The targets that `i` can toggle: those no broader pattern ignores.
pub open spec fn toggleable(ls: Seq<Seq<char>>, ps: Seq<Seq<char>>) -> Seq<Seq<char>> {
    ps.filter(|p: Seq<char>| no_glob_match(ls, p))
}

/// The row under the cursor, if the cursor is on a row.
pub open spec fn current_row(rows: Seq<SItem>, cursor: Option<usize>) -> Option<SItem> {
    match cursor {
        Some(i) => if i < rows.len() {
            Some(rows[i as int])
        } else {
            None
        },
        None => None,
    }
}

/// The browser: the tree, its rows as drawn, the cursor and a status line.
pub struct Browser {
    root: TreeNode,
    items: Vec<DisplayItem>,
    selected: Option<usize>,
    status: Option<String>,
    total_files: usize,
}

impl Browser {
    /// The tree.
    pub closed spec fn tree(self) -> SNode {
        self.root@
    }

    /// The rows as drawn.
    pub closed spec fn rows(self) -> Seq<SItem> {
        item_views(self.items@)
    }

    /// The row the cursor is on, by index.
    pub closed spec fn cursor(self) -> Option<usize> {
        self.selected
    }

    /// The status line that replaces the key hints, if any.
    pub closed spec fn notice(self) -> Option<Seq<char>> {
        opt_text(self.status)
    }

    /// The rows are those of the tree, and the tree is small enough to draw.
    pub closed spec fn wf(self) -> bool {
        &&& files(self.root@).len() <= usize::MAX
        &&& height(self.root@) <= usize::MAX
        &&& item_views(self.items@) == display(self.root@, 0)
        &&& self.total_files == files(self.root@).len()
    }

    /// A browser on `root`, with the cursor on the first row.
    pub fn new(root: TreeNode) -> (res: Browser)
        requires
            files(root@).len() <= usize::MAX,
            height(root@) <= usize::MAX,
        ensures
            res.wf(),
            res.tree() == root@,
            res.rows() == display(root@, 0),
            res.cursor() == if res.rows().len() > 0 {
                Some(0usize)
            } else {
                None
            },
            res.notice() is None,
    {
        let mut items: Vec<DisplayItem> = Vec::new();
        root.flatten(0, &mut items);
        assert(item_views(Seq::<DisplayItem>::empty()) =~= Seq::<SItem>::empty());
        assert(item_views(items@) =~= display(root@, 0));
        let total_files = root.file_count();
        let selected = if items.len() > 0 {
            Some(0)
        } else {
            None
        };
        Browser { root, items, selected, status: None, total_files }
    }

    /// The tree.
    pub fn root(&self) -> (res: &TreeNode)
        ensures
            res@ == self.tree(),
    {
        &self.root
    }

    /// The rows as drawn.
    pub fn items(&self) -> (res: &Vec<DisplayItem>)
        ensures
            item_views(res@) == self.rows(),
    {
        &self.items
    }

    /// The index of the row under the cursor.
    pub fn selected(&self) -> (res: Option<usize>)
        ensures
            res == self.cursor(),
    {
        self.selected
    }

    /// The status line, if one replaces the key hints.
    pub fn status(&self) -> (res: Option<String>)
        ensures
            opt_text(res) == self.notice(),
    {
        match &self.status {
            Some(s) => Some(s.clone()),
            None => None,
        }
    }

    /// The number of files in the tree.
    pub fn total_files(&self) -> (res: usize)
        requires
            self.wf(),
        ensures
            res == files(self.tree()).len(),
    {
        self.total_files
    }

    /// Up: the cursor moves one row up, unless on the first row.
    pub fn move_up(&mut self)
        requires
            old(self).wf(),
        ensures
            final(self).wf(),
            final(self).tree() == old(self).tree(),
            final(self).rows() == old(self).rows(),
            final(self).notice() == old(self).notice(),
            final(self).cursor() == match old(self).cursor() {
                Some(s) => if s > 0 {
                    Some((s - 1) as usize)
                } else {
                    Some(s)
                },
                None => None,
            },
    {
        if let Some(s) = self.selected {
            if s > 0 {
                self.selected = Some(s - 1);
            }
        }
    }

    /// Down: the cursor moves one row down, unless on the last row (no
    /// cursor counts as the first row).
    pub fn move_down(&mut self)
        requires
            old(self).wf(),
        ensures
            final(self).wf(),
            final(self).tree() == old(self).tree(),
            final(self).rows() == old(self).rows(),
            final(self).notice() == old(self).notice(),
            ({
                let s = match old(self).cursor() {
                    Some(s) => s as int,
                    None => 0,
                };
                final(self).cursor() == if s + 1 < old(self).rows().len() {
                    Some((s + 1) as usize)
                } else {
                    old(self).cursor()
                }
            }),
    {
        let s = match self.selected {
            Some(s) => s,
            None => 0,
        };
        if s < self.items.len() && s + 1 < self.items.len() {
            self.selected = Some(s + 1);
        }
    }

    /// The path of the row under the cursor, if the cursor is on a row.
    fn selected_row(&self) -> (res: Option<(String, bool)>)
        requires
            self.wf(),
        ensures
            match current_row(self.rows(), self.cursor()) {
                Some(r) => res matches Some(x) && x.0@ == r.path && x.1 == r.is_folder,
                None => res is None,
            },
    {
        match self.selected {
            Some(i) => if i < self.items.len() {
                Some((self.items[i].path.clone(), self.items[i].is_folder))
            } else {
                None
            },
            None => None,
        }
    }

    /// Right or left: expand or collapse the folder under the cursor (the
    /// GLOBAL row excepted); the rows are drawn anew.
    pub fn toggle_expand_selected(&mut self)
        requires
            old(self).wf(),
        ensures
            final(self).wf(),
            final(self).tree() == match current_row(old(self).rows(), old(self).cursor()) {
                Some(r) => if !same_path(r.path, root_path()) {
                    expand_toggled_at(old(self).tree(), r.path).0
                } else {
                    old(self).tree()
                },
                None => old(self).tree(),
            },
            final(self).rows() == display(final(self).tree(), 0),
            final(self).cursor() == old(self).cursor(),
            final(self).notice() == old(self).notice(),
    {
        if let Some((path, _)) = self.selected_row() {
            proof {
                reveal_strlit("/");
                assert("/"@ =~= root_path());
            }
            if !path_eq(path.as_str(), "/") {
                let ghost before = self.root@;
                self.root.toggle_expand_at(path.as_str());
                proof {
                    lemma_files_expand_toggled_at(before, path@);
                    lemma_height_expand_toggled_at(before, path@);
                }
                self.redraw();
            }
        }
    }

    /// Space: toggle the row under the cursor (the GLOBAL row toggles every
    /// file); the rows are drawn anew and the status line cleared.
    pub fn toggle_selected(&mut self)
        requires
            old(self).wf(),
        ensures
            final(self).wf(),
            final(self).tree() == match current_row(old(self).rows(), old(self).cursor()) {
                Some(r) => toggled_at(old(self).tree(), r.path).0,
                None => old(self).tree(),
            },
            final(self).rows() == display(final(self).tree(), 0),
            final(self).cursor() == old(self).cursor(),
            final(self).notice() is None,
    {
        self.status = None;
        if let Some((path, _)) = self.selected_row() {
            let ghost before = self.root@;
            self.root.toggle_at(path.as_str());
            proof {
                lemma_files_toggled_at(before, path@);
                lemma_height_toggled_at(before, path@);
            }
            self.redraw();
        }
    }

    /// Draw the rows of the tree anew.
    fn redraw(&mut self)
        requires
            files(old(self).root@).len() <= usize::MAX,
            height(old(self).root@) <= usize::MAX,
        ensures
            final(self).wf(),
            final(self).root == old(self).root,
            final(self).selected == old(self).selected,
            final(self).status == old(self).status,
    {
        let mut items: Vec<DisplayItem> = Vec::new();
        self.root.flatten(0, &mut items);
        assert(item_views(Seq::<DisplayItem>::empty()) =~= Seq::<SItem>::empty());
        assert(item_views(items@) =~= display(self.root@, 0));
        self.items = items;
        self.total_files = self.root.file_count();
    }

    /// Enter: the paths of the checked files, to be synced.
    pub fn checked_paths(&self) -> (res: Vec<String>)
        ensures
            texts_of(res@) == checked_paths(files(self.tree())),
    {
        let mut paths = Vec::new();
        self.root.collect_checked_paths(&mut paths);
        assert(texts_of(Seq::<String>::empty()) =~= Seq::<Seq<char>>::empty());
        assert(texts_of(paths@) =~= checked_paths(files(self.tree())));
        paths
    }

    /// `i`: toggle the file under the cursor, or every file below the folder
    /// under the cursor, in the ignore list. Files that a broader pattern
    /// ignores are left alone; when that leaves nothing, the status line says
    /// why. Returns whether the list changed, in which case the caller writes
    /// it back, diffs the directories again and calls `rebuild`.
    pub fn ignore_selected(&mut self, ignore: &mut IgnoreList) -> (changed: bool)
        requires
            old(self).wf(),
        ensures
            final(self).wf(),
            final(self).tree() == old(self).tree(),
            final(self).rows() == old(self).rows(),
            final(self).cursor() == old(self).cursor(),
            match current_row(old(self).rows(), old(self).cursor()) {
                Some(r) => if same_path(r.path, root_path()) {
                    !changed && final(ignore)@ == old(ignore)@ && final(self).notice() is None
                } else {
                    let ts = toggleable(
                        old(ignore)@,
                        ignore_targets(old(self).tree(), r.path, r.is_folder),
                    );
                    if ts.len() == 0 {
                        &&& !changed
                        &&& final(ignore)@ == old(ignore)@
                        &&& final(self).notice() == if r.is_folder {
                            Some(folder_notice())
                        } else {
                            match first_match_from(old(ignore)@, r.path, 0) {
                                Some(g) => Some(glob_notice(g)),
                                None => None,
                            }
                        }
                    } else {
                        &&& changed
                        &&& final(ignore)@ == group_toggled(old(ignore)@, ts)
                        &&& final(self).notice() is None
                    }
                },
                None => !changed && final(ignore)@ == old(ignore)@ && final(self).notice() is None,
            },
    {
        self.status = None;
        let (path, is_folder) = match self.selected_row() {
            Some(row) => row,
            None => {
                return false;
            },
        };
        proof {
            reveal_strlit("/");
            assert("/"@ =~= root_path());
        }
        if path_eq(path.as_str(), "/") {
            return false;
        }
        // Target files: one file, or every file under a folder (folder `i`
        // toggles them as a group).
        let targets: Vec<String> = if is_folder {
            self.root.file_paths_at(path.as_str())
        } else {
            let mut one = Vec::new();
            one.push(path.clone());
            assert(texts_of(one@) =~= seq![path@]);
            one
        };
        let ghost ls = ignore@;
        let ghost ts = texts_of(targets@);
        // Files matched only by a broader glob can't be toggled by exact line
        // - skip them.
        let mut toggle: Vec<String> = Vec::new();
        let mut i: usize = 0;
        while i < targets.len()
            invariant
                ls == ignore@,
                ts == texts_of(targets@),
                i <= targets.len(),
                texts_of(toggle@) == toggleable(ls, ts.take(i as int)),
            decreases targets.len() - i,
        {
            proof {
                let t = ts.take(i as int + 1);
                assert(t.drop_last() =~= ts.take(i as int));
                assert(t.last() == ts[i as int]);
                assert(toggleable(ls, t) == if no_glob_match(ls, ts[i as int]) {
                    toggleable(ls, ts.take(i as int)).push(ts[i as int])
                } else {
                    toggleable(ls, ts.take(i as int))
                }) by {
                    reveal_with_fuel(Seq::filter, 1);
                }
            }
            if ignore.matching_glob(targets[i].as_str()).is_none() {
                let copy = targets[i].clone();
                proof {
                    lemma_texts_of_push(toggle@, copy);
                }
                toggle.push(copy);
            }
            i += 1;
        }
        proof {
            assert(ts.take(i as int) =~= ts);
        }
        if toggle.len() == 0 {
            if !is_folder {
                proof {
                    assert(ts =~= seq![path@]);
                    assert(ts.drop_last() =~= Seq::<Seq<char>>::empty());
                    assert(toggleable(ls, ts) == if no_glob_match(ls, path@) {
                        toggleable(ls, ts.drop_last()).push(path@)
                    } else {
                        toggleable(ls, ts.drop_last())
                    }) by {
                        reveal_with_fuel(Seq::filter, 1);
                    }
                    assert(!no_glob_match(ls, path@));
                }
                if let Some(glob) = ignore.matching_glob(path.as_str()) {
                    self.status = Some(glob_notice_text(glob.as_str()));
                }
            } else {
                self.status = Some(folder_notice_text());
            }
            return false;
        }
        // Toggle as a group: if every toggleable file is already ignored,
        // un-ignore all; else ignore the ones not yet ignored.
        ignore.toggle_group(&toggle);
        true
    }

    /// After the directories were diffed again: show the new tree, keeping
    /// the folders the user collapsed collapsed and the cursor in range.
    pub fn rebuild(&mut self, root: TreeNode)
        requires
            old(self).wf(),
            files(root@).len() <= usize::MAX,
            height(root@) <= usize::MAX,
        ensures
            final(self).wf(),
            final(self).tree() == with_collapsed(root@, collapsed(old(self).tree())),
            final(self).rows() == display(final(self).tree(), 0),
            final(self).cursor() == if final(self).rows().len() == 0 {
                None
            } else {
                let s = match old(self).cursor() {
                    Some(s) => s as int,
                    None => 0,
                };
                Some(
                    (if s < final(self).rows().len() - 1 {
                        s
                    } else {
                        final(self).rows().len() - 1
                    }) as usize,
                )
            },
            final(self).notice() == old(self).notice(),
    {
        let mut collapsed_paths: Vec<String> = Vec::new();
        self.root.collect_collapsed(&mut collapsed_paths);
        assert(texts_of(Seq::<String>::empty()) =~= Seq::<Seq<char>>::empty());
        assert(texts_of(collapsed_paths@) =~= collapsed(self.root@));
        let mut root = root;
        let ghost fresh = root@;
        root.apply_collapsed(collapsed_paths.as_slice());
        proof {
            lemma_files_with_collapsed(fresh, collapsed(old(self).tree()));
            lemma_height_with_collapsed(fresh, collapsed(old(self).tree()));
        }
        let previous = self.selected;
        self.root = root;
        self.redraw();
        // Keep the cursor in range after the rebuild.
        if self.items.len() == 0 {
            self.selected = None;
        } else {
            let s = match previous {
                Some(s) => s,
                None => 0,
            };
            let last = self.items.len() - 1;
            self.selected = Some(
                if s < last {
                    s
                } else {
                    last
                },
            );
        }
    }
}

/// The notice for a file a broader pattern ignores.
fn glob_notice_text(g: &str) -> (res: String)
    ensures
        res@ == glob_notice(g@),
{
    let mut s = "ignored by pattern '".to_owned();
    s.append(g);
    s.append("' — edit .reesyncignore to change");
    s
}

/// The notice for a folder whose files patterns all ignore.
fn folder_notice_text() -> (res: String)
    ensures
        res@ == folder_notice(),
{
    "all files here are ignored by a pattern — edit .reesyncignore to change".to_owned()
}

} // verus!
