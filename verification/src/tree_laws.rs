//! Properties of the checkbox tree that hold across its operations.

use vstd::prelude::*;

use crate::diff::FileState;
use crate::text::{distinct_paths, lists_path, same_path};
use crate::tree_model::{
    height, height_of,
    display, display_of, global_label, lemma_toggled_at_not_found, paths_at, paths_at_from,
    checked_paths, file_paths, lemma_files_of_add, root_path, size, size_of,
    all_with_checked, all_with_collapsed, collapsed, collapsed_of, count_checked, count_selectable, expand_toggled_at,
    expand_toggled_at_from, file_with_checked, files, files_of, lemma_count_add,
    lemma_count_le_len, lemma_count_single, lemma_files_of_push, lemma_files_of_split, lemma_files_of_take,
    is_global, toggled, toggled_at, toggled_at_from, with_checked, with_collapsed, SFile, SItem,
    SNode,
};

verus! {

/// No deleted file of the list is checked.
pub open spec fn no_deleted_checked(fs: Seq<SFile>) -> bool {
    forall|i: int| 0 <= i < fs.len() && #[trigger] fs[i].state == FileState::Deleted ==> !fs[i].checked
}

/// `b` is `a` with only some checkboxes changed, and none of a deleted file.
pub open spec fn rechecked(a: Seq<SFile>, b: Seq<SFile>) -> bool {
    &&& a.len() == b.len()
    &&& forall|i: int|
        0 <= i < a.len() ==> #[trigger] b[i] == (SFile { checked: b[i].checked, ..a[i] })
    &&& forall|i: int|
        0 <= i < a.len() && #[trigger] a[i].state == FileState::Deleted ==> b[i].checked
            == a[i].checked
}

/// Every file of the list with its checkbox set to `c` where it can change.
pub open spec fn map_checked(fs: Seq<SFile>, c: bool) -> Seq<SFile> {
    fs.map_values(|f: SFile| file_with_checked(f, c))
}

// ------------------------------------------------------------------------
// Helper facts
// ------------------------------------------------------------------------

proof fn lemma_rechecked_add(a1: Seq<SFile>, b1: Seq<SFile>, a2: Seq<SFile>, b2: Seq<SFile>)
    requires
        rechecked(a1, b1),
        rechecked(a2, b2),
    ensures
        rechecked(a1 + a2, b1 + b2),
{
    assert forall|i: int| 0 <= i < (a1 + a2).len() implies #[trigger] (b1 + b2)[i] == (SFile {
        checked: (b1 + b2)[i].checked,
        ..(a1 + a2)[i]
    }) by {
        if i < a1.len() {
        } else {
            assert(b2[i - a1.len()] == (SFile { checked: b2[i - a1.len()].checked, ..a2[i - a1.len()] }));
        }
    }
    assert forall|i: int|
        0 <= i < (a1 + a2).len() && #[trigger] (a1 + a2)[i].state == FileState::Deleted implies (b1
        + b2)[i].checked == (a1 + a2)[i].checked by {
        if i < a1.len() {
        } else {
            assert(a2[i - a1.len()].state == FileState::Deleted);
        }
    }
}

proof fn lemma_rechecked_refl(a: Seq<SFile>)
    ensures
        rechecked(a, a),
{
    assert forall|i: int| 0 <= i < a.len() implies #[trigger] a[i] == (SFile { checked: a[i].checked, ..a[i] }) by {
    }
}

proof fn lemma_map_checked_add(a: Seq<SFile>, b: Seq<SFile>, c: bool)
    ensures
        map_checked(a + b, c) == map_checked(a, c) + map_checked(b, c),
{
    assert(map_checked(a + b, c) =~= map_checked(a, c) + map_checked(b, c));
}

/// Preserving the checkboxes of deleted files keeps them all unchecked.
pub proof fn lemma_rechecked_keeps_no_deleted_checked(a: Seq<SFile>, b: Seq<SFile>)
    requires
        rechecked(a, b),
        no_deleted_checked(a),
    ensures
        no_deleted_checked(b),
        count_selectable(b) == count_selectable(a),
        b.len() == a.len(),
        b.map_values(|f: SFile| f.path) == a.map_values(|f: SFile| f.path),
    decreases a.len(),
{
    assert forall|i: int| 0 <= i < b.len() && #[trigger] b[i].state == FileState::Deleted implies !b[i].checked by {
        assert(b[i] == (SFile { checked: b[i].checked, ..a[i] }));
        assert(a[i].state == FileState::Deleted);
    }
    assert(b.map_values(|f: SFile| f.path) =~= a.map_values(|f: SFile| f.path)) by {
        assert forall|i: int| 0 <= i < b.len() implies b[i].path == a[i].path by {
            assert(b[i] == (SFile { checked: b[i].checked, ..a[i] }));
        }
    }
    lemma_rechecked_selectable(a, b);
}

proof fn lemma_rechecked_selectable(a: Seq<SFile>, b: Seq<SFile>)
    requires
        rechecked(a, b),
    ensures
        count_selectable(b) == count_selectable(a),
    decreases a.len(),
{
    if a.len() > 0 {
        let a1 = a.drop_last();
        let b1 = b.drop_last();
        assert(rechecked(a1, b1)) by {
            assert forall|i: int| 0 <= i < a1.len() implies #[trigger] b1[i] == (SFile { checked: b1[i].checked, ..a1[i] }) by {
                assert(b[i] == (SFile { checked: b[i].checked, ..a[i] }));
            }
            assert forall|i: int| 0 <= i < a1.len() && #[trigger] a1[i].state == FileState::Deleted implies b1[i].checked == a1[i].checked by {
                assert(a[i].state == FileState::Deleted);
            }
        }
        lemma_rechecked_selectable(a1, b1);
        assert(b[a.len() - 1] == (SFile { checked: b[a.len() - 1].checked, ..a[a.len() - 1] }));
    }
}

// ------------------------------------------------------------------------
// What the operations do to the list of files
// ------------------------------------------------------------------------

/// Setting every checkbox under a node changes the files exactly as
/// `file_with_checked` says, one by one.
pub proof fn lemma_files_with_checked(n: SNode, c: bool)
    ensures
        files(with_checked(n, c)) == map_checked(files(n), c),
    decreases n, 1nat,
{
    match n {
        SNode::File(f) => {
            assert(map_checked(seq![f], c) =~= seq![file_with_checked(f, c)]);
        },
        SNode::Folder { children, .. } => {
            lemma_files_all_with_checked(children, c);
        },
    }
}

proof fn lemma_files_all_with_checked(s: Seq<SNode>, c: bool)
    ensures
        files_of(all_with_checked(s, c)) == map_checked(files_of(s), c),
    decreases s, 0nat,
{
    if s.len() == 0 {
        assert(map_checked(Seq::<SFile>::empty(), c) =~= Seq::<SFile>::empty());
    } else {
        let t = s.subrange(0, s.len() - 1);
        let w = all_with_checked(s, c);
        lemma_files_all_with_checked(t, c);
        lemma_files_with_checked(s[s.len() - 1], c);
        assert(w.subrange(0, w.len() - 1) =~= all_with_checked(t, c));
        lemma_map_checked_add(files_of(t), files(s[s.len() - 1]), c);
    }
}

/// Pressing space on a node only changes checkboxes, never that of a deleted file.
pub proof fn lemma_files_toggled(n: SNode)
    ensures
        rechecked(files(n), files(toggled(n))),
{
    match n {
        SNode::File(f) => {},
        SNode::Folder { .. } => {
            let c = count_checked(files(n)) < count_selectable(files(n));
            lemma_files_with_checked(n, c);
        },
    }
}

/// Toggling at a path only changes checkboxes, never that of a deleted file.
pub proof fn lemma_files_toggled_at(n: SNode, p: Seq<char>)
    ensures
        rechecked(files(n), files(toggled_at(n, p).0)),
    decreases n, 0nat,
{
    if same_path(n.path(), p) {
        lemma_files_toggled(n);
    } else {
        match n {
            SNode::File(_) => {
                lemma_rechecked_refl(files(n));
            },
            SNode::Folder { children, .. } => {
                lemma_files_toggled_at_from(children, p, 0);
            },
        }
    }
}

proof fn lemma_files_toggled_at_from(s: Seq<SNode>, p: Seq<char>, i: int)
    ensures
        rechecked(files_of(s), files_of(toggled_at_from(s, p, i).0)),
    decreases s, s.len() - i,
{
    if i < 0 || i >= s.len() {
        lemma_rechecked_refl(files_of(s));
    } else {
        let r = toggled_at(s[i], p);
        if r.1 {
            lemma_files_toggled_at(s[i], p);
            let u = s.update(i, r.0);
            lemma_files_of_split(s, i);
            lemma_files_of_split(u, i);
            lemma_files_of_take(s, i);
            lemma_files_of_take(u, i);
            lemma_files_of_split(s.skip(i), 1);
            lemma_files_of_split(u.skip(i), 1);
            assert(u.take(i) =~= s.take(i));
            assert(u.skip(i).skip(1) =~= s.skip(i).skip(1));
            assert(s.skip(i).take(1) =~= seq![s[i]]);
            assert(u.skip(i).take(1) =~= seq![r.0]);
            lemma_files_of_single(s[i]);
            lemma_files_of_single(r.0);
            lemma_rechecked_refl(files_of(s.take(i)));
            lemma_rechecked_refl(files_of(s.skip(i).skip(1)));
            lemma_rechecked_add(files_of(s.take(i)), files_of(u.take(i)), files(s[i]), files(r.0));
            lemma_rechecked_add(
                files_of(s.take(i)) + files(s[i]),
                files_of(u.take(i)) + files(r.0),
                files_of(s.skip(i).skip(1)),
                files_of(u.skip(i).skip(1)),
            );
            assert(files_of(s.skip(i)) == files(s[i]) + files_of(s.skip(i).skip(1)));
            assert(files_of(u.skip(i)) == files(r.0) + files_of(u.skip(i).skip(1)));
            assert(files_of(s) =~= files_of(s.take(i)) + files(s[i]) + files_of(s.skip(i).skip(1)));
            assert(files_of(u) =~= files_of(u.take(i)) + files(r.0) + files_of(u.skip(i).skip(1)));
        } else {
            lemma_files_toggled_at_from(s, p, i + 1);
        }
    }
}

/// Expanding or collapsing a folder leaves the files as they are.
pub proof fn lemma_files_expand_toggled_at(n: SNode, p: Seq<char>)
    ensures
        files(expand_toggled_at(n, p).0) == files(n),
    decreases n, 0nat,
{
    match n {
        SNode::File(_) => {},
        SNode::Folder { path, children, .. } => {
            if path != p {
                lemma_files_expand_toggled_at_from(children, p, 0);
            }
        },
    }
}

proof fn lemma_files_expand_toggled_at_from(s: Seq<SNode>, p: Seq<char>, i: int)
    ensures
        files_of(expand_toggled_at_from(s, p, i).0) == files_of(s),
    decreases s, s.len() - i,
{
    if 0 <= i < s.len() {
        let r = expand_toggled_at(s[i], p);
        if r.1 {
            lemma_files_expand_toggled_at(s[i], p);
            lemma_files_of_update(s, i, r.0);
        } else {
            lemma_files_expand_toggled_at_from(s, p, i + 1);
        }
    }
}

pub proof fn lemma_files_of_single(x: SNode)
    ensures
        files_of(seq![x]) == files(x),
{
    lemma_files_of_push(Seq::empty(), x);
    assert(Seq::<SNode>::empty().push(x) =~= seq![x]);
    assert(Seq::<SFile>::empty() + files(x) =~= files(x));
}

/// Replacing a node by one with the same files keeps the files of the list.
pub proof fn lemma_files_of_update(s: Seq<SNode>, i: int, x: SNode)
    requires
        0 <= i < s.len(),
        files(x) == files(s[i]),
    ensures
        files_of(s.update(i, x)) == files_of(s),
{
    let u = s.update(i, x);
    lemma_files_of_split(s, i + 1);
    lemma_files_of_split(u, i + 1);
    lemma_files_of_take(s, i);
    lemma_files_of_take(u, i);
    assert(u.take(i) =~= s.take(i));
    assert(u.skip(i + 1) =~= s.skip(i + 1));
}

/// Collapsing folders by path leaves the files as they are.
pub proof fn lemma_files_with_collapsed(n: SNode, ps: Seq<Seq<char>>)
    ensures
        files(with_collapsed(n, ps)) == files(n),
    decreases n, 1nat,
{
    match n {
        SNode::File(_) => {},
        SNode::Folder { children, .. } => {
            lemma_files_all_with_collapsed(children, ps);
        },
    }
}

proof fn lemma_files_all_with_collapsed(s: Seq<SNode>, ps: Seq<Seq<char>>)
    ensures
        files_of(all_with_collapsed(s, ps)) == files_of(s),
    decreases s, 0nat,
{
    if s.len() > 0 {
        let t = s.subrange(0, s.len() - 1);
        let w = all_with_collapsed(s, ps);
        lemma_files_all_with_collapsed(t, ps);
        lemma_files_with_collapsed(s[s.len() - 1], ps);
        assert(w.subrange(0, w.len() - 1) =~= all_with_collapsed(t, ps));
    }
}

// ------------------------------------------------------------------------
// Counting laws
// ------------------------------------------------------------------------

/// While no deleted file is checked, a tree never has more checked files
/// than selectable ones, nor more selectable files than files.
pub proof fn lemma_count_bounds(fs: Seq<SFile>)
    requires
        no_deleted_checked(fs),
    ensures
        count_checked(fs) <= count_selectable(fs),
        count_selectable(fs) <= fs.len(),
    decreases fs.len(),
{
    lemma_count_le_len(fs);
    if fs.len() > 0 {
        lemma_count_bounds(fs.drop_last());
    }
}

/// Checking every file checks exactly the selectable ones; unchecking every
/// file leaves none checked (while no deleted file is checked).
pub proof fn lemma_count_map_checked(fs: Seq<SFile>, c: bool)
    requires
        no_deleted_checked(fs),
    ensures
        count_checked(map_checked(fs, c)) == if c {
            count_selectable(fs)
        } else {
            0
        },
        count_selectable(map_checked(fs, c)) == count_selectable(fs),
        no_deleted_checked(map_checked(fs, c)),
    decreases fs.len(),
{
    if fs.len() > 0 {
        let t = fs.drop_last();
        lemma_count_map_checked(t, c);
        assert(map_checked(fs, c).drop_last() =~= map_checked(t, c));
    }
}

/// Pressing space on a folder checks every selectable file below it when
/// some was unchecked, and unchecks all of them when all were checked; it
/// changes no file's path, state or count.
pub proof fn law_folder_toggle(n: SNode)
    requires
        n is Folder,
        no_deleted_checked(files(n)),
    ensures
        count_checked(files(toggled(n))) == if count_checked(files(n)) < count_selectable(
            files(n),
        ) {
            count_selectable(files(n))
        } else {
            0
        },
        count_selectable(files(toggled(n))) == count_selectable(files(n)),
        files(toggled(n)).len() == files(n).len(),
        no_deleted_checked(files(toggled(n))),
{
    let c = count_checked(files(n)) < count_selectable(files(n));
    lemma_files_with_checked(n, c);
    lemma_count_map_checked(files(n), c);
}

/// Setting every checkbox below a node to `c` gives every file that is not
/// deleted the checkbox `c`, whether or not it is ignored, and leaves
/// deleted files, every other field and the order of the files as they were.
pub proof fn law_set_checked_files(n: SNode, c: bool)
    ensures
        files(with_checked(n, c)).len() == files(n).len(),
        forall|i: int|
            0 <= i < files(n).len() ==> #[trigger] files(with_checked(n, c))[i] == (SFile {
                checked: if files(n)[i].state != FileState::Deleted {
                    c
                } else {
                    files(n)[i].checked
                },
                ..files(n)[i]
            }),
{
    lemma_files_with_checked(n, c);
}

/// Setting every checkbox to the same value a second time changes nothing.
pub proof fn law_set_checked_twice(n: SNode, c: bool)
    ensures
        with_checked(with_checked(n, c), c) == with_checked(n, c),
    decreases n,
{
    if let SNode::Folder { children, .. } = n {
        let once = all_with_checked(children, c);
        assert forall|i: int| 0 <= i < children.len() implies #[trigger] all_with_checked(once, c)[i]
            == once[i] by {
            law_set_checked_twice(children[i], c);
            assert(once[i] == with_checked(children[i], c));
        }
        assert(all_with_checked(once, c) =~= once);
    }
}

/// Pressing space on a file that is not deleted flips its checkbox and
/// changes nothing else, whether or not the file is ignored (an ignored
/// file is only pre-unchecked).
pub proof fn law_file_toggle_flips(f: SFile)
    requires
        f.state != FileState::Deleted,
    ensures
        toggled(SNode::File(f)) is File,
        files(toggled(SNode::File(f))) == seq![SFile { checked: !f.checked, ..f }],
        files(toggled(SNode::File(f)))[0].checked != f.checked,
        files(toggled(SNode::File(f)))[0].path == f.path,
        files(toggled(SNode::File(f)))[0].ignored == f.ignored,
{
}

/// Pressing space twice on a file gives back the file.
pub proof fn law_file_toggle_twice(f: SFile)
    ensures
        toggled(toggled(SNode::File(f))) == SNode::File(f),
{
}

/// A deleted file is never checked by pressing space on it.
pub proof fn law_deleted_file_not_toggled(f: SFile)
    requires
        f.state == FileState::Deleted,
    ensures
        toggled(SNode::File(f)) == SNode::File(f),
{
}

/// Toggling at a path keeps every deleted file unchecked, and every file's
/// path, state and the number of selectable files.
pub proof fn law_toggle_at_keeps_deleted_unchecked(n: SNode, p: Seq<char>)
    requires
        no_deleted_checked(files(n)),
    ensures
        no_deleted_checked(files(toggled_at(n, p).0)),
        count_selectable(files(toggled_at(n, p).0)) == count_selectable(files(n)),
        files(toggled_at(n, p).0).len() == files(n).len(),
        files(toggled_at(n, p).0).map_values(|f: SFile| f.path) == files(n).map_values(
            |f: SFile| f.path,
        ),
{
    lemma_files_toggled_at(n, p);
    lemma_rechecked_keeps_no_deleted_checked(files(n), files(toggled_at(n, p).0));
}

/// `p` is the path of a checked file of the list that the template has.
pub open spec fn copyable_path(fs: Seq<SFile>, p: Seq<char>) -> bool {
    exists|i: int|
        0 <= i < fs.len() && (#[trigger] fs[i]).path == p && fs[i].checked && fs[i].state
            != FileState::Deleted
}

/// The paths synced on Enter are those of checked files; where no deleted
/// file is checked, each of them is the path of a file the template has.
pub proof fn law_synced_files_are_copyable(fs: Seq<SFile>)
    requires
        no_deleted_checked(fs),
    ensures
        forall|k: int|
            0 <= k < checked_paths(fs).len() ==> copyable_path(fs, #[trigger] checked_paths(fs)[k]),
    decreases fs.len(),
{
    if fs.len() > 0 {
        let init = fs.drop_last();
        assert forall|i: int| 0 <= i < init.len() && #[trigger] init[i].state == FileState::Deleted
            implies !init[i].checked by {
            assert(fs[i] == init[i]);
        }
        law_synced_files_are_copyable(init);
        let cp = checked_paths(fs);
        let ci = checked_paths(init);
        assert forall|k: int| 0 <= k < cp.len() implies copyable_path(fs, #[trigger] cp[k]) by {
            if k < ci.len() {
                assert(cp[k] == ci[k]);
                assert(copyable_path(init, ci[k]));
                let i = choose|i: int|
                    0 <= i < init.len() && (#[trigger] init[i]).path == ci[k] && init[i].checked
                        && init[i].state != FileState::Deleted;
                assert(fs[i] == init[i]);
            } else {
                let last = fs.len() - 1;
                assert(fs[last].state == FileState::Deleted ==> !fs[last].checked);
                assert(cp[k] == fs[last].path);
                assert(fs[last] == fs[last]);
            }
        }
    }
}

/// Expanding or collapsing, and restoring collapsed folders, never change
/// the files or their checkboxes.
pub proof fn law_expansion_keeps_files(n: SNode, p: Seq<char>, ps: Seq<Seq<char>>)
    ensures
        files(expand_toggled_at(n, p).0) == files(n),
        files(with_collapsed(n, ps)) == files(n),
{
    lemma_files_expand_toggled_at(n, p);
    lemma_files_with_collapsed(n, ps);
}

// ------------------------------------------------------------------------
// Keeping collapsed folders across a rebuild
// ------------------------------------------------------------------------

/// The folders of a tree in display order, each with its expanded flag.
pub open spec fn folder_flags(n: SNode) -> Seq<(Seq<char>, bool)>
    decreases n,
{
    match n {
        SNode::File(_) => Seq::empty(),
        SNode::Folder { path, children, expanded, .. } => seq![(path, expanded)]
            + folder_flags_of(children),
    }
}

pub open spec fn folder_flags_of(s: Seq<SNode>) -> Seq<(Seq<char>, bool)>
    decreases s,
{
    if s.len() == 0 {
        Seq::empty()
    } else {
        folder_flags_of(s.subrange(0, s.len() - 1)) + folder_flags(s[s.len() - 1])
    }
}

/// The paths of the collapsed folders of a flag list.
pub open spec fn flags_collapsed(fl: Seq<(Seq<char>, bool)>) -> Seq<Seq<char>>
    decreases fl.len(),
{
    if fl.len() == 0 {
        Seq::empty()
    } else {
        flags_collapsed(fl.drop_last()) + if !fl.last().1 {
            seq![fl.last().0]
        } else {
            Seq::empty()
        }
    }
}

/// Flags after collapsing the folders whose paths are in `ps`.
pub open spec fn flags_applied(fl: Seq<(Seq<char>, bool)>, ps: Seq<Seq<char>>) -> Seq<
    (Seq<char>, bool),
> {
    fl.map_values(|x: (Seq<char>, bool)| (x.0, x.1 && !lists_path(ps, x.0)))
}

pub open spec fn flag_paths(fl: Seq<(Seq<char>, bool)>) -> Seq<Seq<char>> {
    fl.map_values(|x: (Seq<char>, bool)| x.0)
}

proof fn lemma_flags_collapsed_add(a: Seq<(Seq<char>, bool)>, b: Seq<(Seq<char>, bool)>)
    ensures
        flags_collapsed(a + b) == flags_collapsed(a) + flags_collapsed(b),
    decreases b.len(),
{
    if b.len() == 0 {
        assert(a + b =~= a);
        assert(flags_collapsed(a) + flags_collapsed(b) =~= flags_collapsed(a));
    } else {
        lemma_flags_collapsed_add(a, b.drop_last());
        assert((a + b).drop_last() =~= a + b.drop_last());
        assert(flags_collapsed(a + b) =~= flags_collapsed(a) + flags_collapsed(b));
    }
}

/// The collapsed folders of a tree are those of its flag list.
proof fn lemma_collapsed_flags(n: SNode)
    ensures
        collapsed(n) == flags_collapsed(folder_flags(n)),
    decreases n, 1nat,
{
    match n {
        SNode::File(_) => {},
        SNode::Folder { path, children, expanded, .. } => {
            lemma_collapsed_flags_of(children);
            lemma_flags_collapsed_add(seq![(path, expanded)], folder_flags_of(children));
            assert(seq![(path, expanded)].drop_last() =~= Seq::<(Seq<char>, bool)>::empty());
            assert(seq![(path, expanded)].last() == (path, expanded));
            assert(flags_collapsed(Seq::<(Seq<char>, bool)>::empty()) =~= Seq::<Seq<char>>::empty());
            assert(flags_collapsed(seq![(path, expanded)]) =~= if !expanded {
                seq![path]
            } else {
                Seq::<Seq<char>>::empty()
            });
        },
    }
}

proof fn lemma_collapsed_flags_of(s: Seq<SNode>)
    ensures
        collapsed_of(s) == flags_collapsed(folder_flags_of(s)),
    decreases s, 0nat,
{
    if s.len() > 0 {
        let t = s.subrange(0, s.len() - 1);
        lemma_collapsed_flags_of(t);
        lemma_collapsed_flags(s[s.len() - 1]);
        lemma_flags_collapsed_add(folder_flags_of(t), folder_flags(s[s.len() - 1]));
    }
}

/// Collapsing by a path list changes the flags exactly as `flags_applied` says.
proof fn lemma_flags_with_collapsed(n: SNode, ps: Seq<Seq<char>>)
    ensures
        folder_flags(with_collapsed(n, ps)) == flags_applied(folder_flags(n), ps),
    decreases n, 1nat,
{
    match n {
        SNode::File(_) => {
            assert(flags_applied(Seq::empty(), ps) =~= Seq::<(Seq<char>, bool)>::empty());
        },
        SNode::Folder { path, children, expanded, .. } => {
            lemma_flags_all_with_collapsed(children, ps);
            assert(flags_applied(seq![(path, expanded)] + folder_flags_of(children), ps)
                =~= seq![(path, expanded && !lists_path(ps, path))] + flags_applied(
                folder_flags_of(children),
                ps,
            ));
        },
    }
}

proof fn lemma_flags_all_with_collapsed(s: Seq<SNode>, ps: Seq<Seq<char>>)
    ensures
        folder_flags_of(all_with_collapsed(s, ps)) == flags_applied(folder_flags_of(s), ps),
    decreases s, 0nat,
{
    if s.len() == 0 {
        assert(flags_applied(Seq::empty(), ps) =~= Seq::<(Seq<char>, bool)>::empty());
    } else {
        let t = s.subrange(0, s.len() - 1);
        let w = all_with_collapsed(s, ps);
        lemma_flags_all_with_collapsed(t, ps);
        lemma_flags_with_collapsed(s[s.len() - 1], ps);
        assert(w.subrange(0, w.len() - 1) =~= all_with_collapsed(t, ps));
        assert(flags_applied(folder_flags_of(t) + folder_flags(s[s.len() - 1]), ps)
            =~= flags_applied(folder_flags_of(t), ps) + flags_applied(folder_flags(s[s.len() - 1]), ps));
    }
}

proof fn lemma_flags_collapsed_in_paths(fl: Seq<(Seq<char>, bool)>, q: Seq<char>)
    ensures
        flags_collapsed(fl).contains(q) ==> flag_paths(fl).contains(q),
    decreases fl.len(),
{
    if fl.len() > 0 {
        let t = fl.drop_last();
        lemma_flags_collapsed_in_paths(t, q);
        if flags_collapsed(fl).contains(q) {
            let k = choose|k: int| 0 <= k < flags_collapsed(fl).len() && flags_collapsed(fl)[k] == q;
            if k < flags_collapsed(t).len() {
                assert(flags_collapsed(t)[k] == q);
                let j = choose|j: int| 0 <= j < flag_paths(t).len() && flag_paths(t)[j] == q;
                assert(flag_paths(fl)[j] == q);
            } else {
                assert(flag_paths(fl)[fl.len() - 1] == q);
            }
        }
    }
}

proof fn lemma_flags_all_expanded(fl: Seq<(Seq<char>, bool)>)
    requires
        flags_collapsed(fl).len() == 0,
    ensures
        forall|i: int| 0 <= i < fl.len() ==> (#[trigger] fl[i]).1,
    decreases fl.len(),
{
    if fl.len() > 0 {
        lemma_flags_all_expanded(fl.drop_last());
        assert forall|i: int| 0 <= i < fl.len() implies (#[trigger] fl[i]).1 by {
            if i < fl.len() - 1 {
                assert(fl.drop_last()[i] == fl[i]);
            }
        }
    }
}

proof fn lemma_flags_roundtrip(
    fl1: Seq<(Seq<char>, bool)>,
    fl2: Seq<(Seq<char>, bool)>,
    big: Seq<Seq<char>>,
)
    requires
        flag_paths(fl1) == flag_paths(fl2),
        flag_paths(fl1).no_duplicates(),
        forall|i: int| 0 <= i < fl2.len() ==> (#[trigger] fl2[i]).1,
        forall|q: Seq<char>|
            flag_paths(fl1).contains(q) ==> (lists_path(big, q) <==> flags_collapsed(fl1).contains(q)),
    ensures
        flags_collapsed(flags_applied(fl2, big)) == flags_collapsed(fl1),
    decreases fl1.len(),
{
    assert(fl1.len() == flag_paths(fl1).len());
    assert(fl2.len() == flag_paths(fl2).len());
    if fl1.len() > 0 {
        let t1 = fl1.drop_last();
        let t2 = fl2.drop_last();
        let n = fl1.len() - 1;
        let p = fl1[n].0;
        assert(flag_paths(t1) =~= flag_paths(fl1).drop_last());
        assert(flag_paths(t2) =~= flag_paths(fl2).drop_last());
        assert(flag_paths(fl1)[n] == p);
        assert(flag_paths(fl2)[n] == fl2[n].0);
        assert forall|q: Seq<char>| flag_paths(t1).contains(q) implies (lists_path(big, q)
            <==> flags_collapsed(t1).contains(q)) by {
            let j = choose|j: int| 0 <= j < flag_paths(t1).len() && flag_paths(t1)[j] == q;
            assert(flag_paths(fl1)[j] == q);
            assert(flag_paths(fl1).contains(q));
            assert(q != p);
            let l = flags_collapsed(fl1);
            let lt = flags_collapsed(t1);
            if lt.contains(q) {
                let k = choose|k: int| 0 <= k < lt.len() && lt[k] == q;
                assert(l[k] == q);
            }
            if l.contains(q) {
                let k = choose|k: int| 0 <= k < l.len() && l[k] == q;
                if k >= lt.len() {
                    assert(l[k] == p);
                }
                assert(lt[k] == q);
            }
        }
        assert forall|i: int| 0 <= i < t2.len() implies (#[trigger] t2[i]).1 by {
            assert(t2[i] == fl2[i]);
        }
        lemma_flags_roundtrip(t1, t2, big);
        assert(flags_applied(fl2, big).drop_last() =~= flags_applied(t2, big));
        assert(flags_applied(fl2, big).last() == (p, fl2[n].1 && !lists_path(big, p)));
        // p is in big exactly when the last folder of fl1 is collapsed
        lemma_flags_collapsed_in_paths(t1, p);
        assert(flag_paths(fl1).contains(p));
        if !fl1[n].1 {
            assert(flags_collapsed(fl1)[flags_collapsed(fl1).len() - 1] == p);
        } else {
            if flags_collapsed(fl1).contains(p) {
                assert(flags_collapsed(fl1) == flags_collapsed(t1));
                assert(flag_paths(t1).contains(p));
                let j = choose|j: int| 0 <= j < flag_paths(t1).len() && flag_paths(t1)[j] == p;
                assert(flag_paths(fl1)[j] == p);
                assert(flag_paths(fl1)[n] == p);
            }
        }
    }
}

/// Restoring the collapsed folders of a tree onto a freshly built tree with
/// the same folders (all expanded, no two the same path) collapses exactly
/// the same folders again.
pub proof fn law_collapse_roundtrip(t1: SNode, t2: SNode)
    requires
        flag_paths(folder_flags(t1)) == flag_paths(folder_flags(t2)),
        distinct_paths(flag_paths(folder_flags(t1))),
        collapsed(t2).len() == 0,
    ensures
        collapsed(with_collapsed(t2, collapsed(t1))) == collapsed(t1),
{
    let fl1 = folder_flags(t1);
    let fl2 = folder_flags(t2);
    let fp = flag_paths(fl1);
    lemma_collapsed_flags(t1);
    lemma_collapsed_flags(t2);
    lemma_flags_all_expanded(fl2);
    lemma_collapsed_flags(with_collapsed(t2, collapsed(t1)));
    lemma_flags_with_collapsed(t2, collapsed(t1));
    let big = collapsed(t1);
    assert forall|i: int, j: int| 0 <= i < fp.len() && 0 <= j < fp.len() && i != j implies fp[i]
        != fp[j] by {
        assert(!same_path(fp[i], fp[j]));
    }
    assert(fp.no_duplicates());
    assert forall|q: Seq<char>| fp.contains(q) implies (lists_path(big, q)
        <==> flags_collapsed(fl1).contains(q)) by {
        if flags_collapsed(fl1).contains(q) {
            let k = choose|k: int| 0 <= k < big.len() && big[k] == q;
            assert(same_path(big[k], q));
        }
        if lists_path(big, q) {
            let k = choose|k: int| 0 <= k < big.len() && same_path(#[trigger] big[k], q);
            assert(big.contains(big[k]));
            lemma_flags_collapsed_in_paths(fl1, big[k]);
            let i = choose|i: int| 0 <= i < fp.len() && fp[i] == big[k];
            let j = choose|j: int| 0 <= j < fp.len() && fp[j] == q;
            assert(i == j);
        }
    }
    lemma_flags_roundtrip(fl1, fl2, big);
}

// ------------------------------------------------------------------------
// Finding nodes by path
// ------------------------------------------------------------------------

/// Whether some node of the tree has the path `p` (as `Path` compares).
pub open spec fn has_path(n: SNode, p: Seq<char>) -> bool
    decreases n,
{
    same_path(n.path(), p) || match n {
        SNode::File(_) => false,
        SNode::Folder { children, .. } => exists|i: int|
            0 <= i < children.len() && has_path(#[trigger] children[i], p),
    }
}

/// Whether some folder of the tree has the path `p` (as `Path` compares).
pub open spec fn has_folder_path(n: SNode, p: Seq<char>) -> bool
    decreases n,
{
    match n {
        SNode::File(_) => false,
        SNode::Folder { path, children, .. } => same_path(path, p) || exists|i: int|
            0 <= i < children.len() && has_folder_path(#[trigger] children[i], p),
    }
}

/// Toggling at a path reports success exactly when some node has that path,
/// and expanding at a path exactly when some folder has it.
pub proof fn law_found_iff_present(n: SNode, p: Seq<char>)
    ensures
        toggled_at(n, p).1 == has_path(n, p),
        expand_toggled_at(n, p).1 == has_folder_path(n, p),
    decreases n, 0nat,
{
    match n {
        SNode::File(_) => {},
        SNode::Folder { children, .. } => {
            lemma_found_from(children, p, 0);
        },
    }
}

proof fn lemma_found_from(s: Seq<SNode>, p: Seq<char>, i: int)
    requires
        0 <= i,
    ensures
        toggled_at_from(s, p, i).1 == exists|j: int| i <= j < s.len() && has_path(#[trigger] s[j], p),
        expand_toggled_at_from(s, p, i).1 == exists|j: int|
            i <= j < s.len() && has_folder_path(#[trigger] s[j], p),
    decreases s, s.len() - i,
{
    if i < s.len() {
        law_found_iff_present(s[i], p);
        lemma_found_from(s, p, i + 1);
        if exists|j: int| i <= j < s.len() && has_path(#[trigger] s[j], p) {
            let j = choose|j: int| i <= j < s.len() && has_path(#[trigger] s[j], p);
            if j > i {
                assert(i + 1 <= j < s.len() && has_path(s[j], p));
            }
        }
        if exists|j: int| i <= j < s.len() && has_folder_path(#[trigger] s[j], p) {
            let j = choose|j: int| i <= j < s.len() && has_folder_path(#[trigger] s[j], p);
            if j > i {
                assert(i + 1 <= j < s.len() && has_folder_path(s[j], p));
            }
        }
    }
}

/// The files below a path: none when no node has that path.
pub proof fn law_paths_at_absent(n: SNode, p: Seq<char>)
    requires
        !has_path(n, p),
    ensures
        paths_at(n, p).len() == 0,
    decreases n, 0nat,
{
    match n {
        SNode::File(_) => {},
        SNode::Folder { children, .. } => {
            lemma_paths_at_from_absent(children, p, 0);
        },
    }
}

proof fn lemma_paths_at_from_absent(s: Seq<SNode>, p: Seq<char>, i: int)
    requires
        forall|j: int| 0 <= j < s.len() ==> !has_path(#[trigger] s[j], p),
    ensures
        paths_at_from(s, p, i).len() == 0,
    decreases s, s.len() - i,
{
    if 0 <= i < s.len() {
        law_paths_at_absent(s[i], p);
        lemma_paths_at_from_absent(s, p, i + 1);
    }
}

proof fn lemma_paths_at_slice(n: SNode, p: Seq<char>)
    ensures
        exists|a: int, b: int|
            0 <= a <= b <= files(n).len() && paths_at(n, p) == file_paths(
                #[trigger] files(n).subrange(a, b),
            ),
    decreases n, 0nat,
{
    let fs = files(n);
    if same_path(n.path(), p) {
        assert(fs.subrange(0, fs.len() as int) =~= fs);
        assert(paths_at(n, p) == file_paths(fs.subrange(0, fs.len() as int)));
    } else {
        match n {
            SNode::File(_) => {
                assert(file_paths(fs.subrange(0, 0)) =~= Seq::<Seq<char>>::empty());
                assert(paths_at(n, p) == file_paths(fs.subrange(0, 0)));
            },
            SNode::Folder { children, .. } => {
                lemma_paths_at_from_slice(children, p, 0);
            },
        }
    }
}

proof fn lemma_paths_at_from_slice(s: Seq<SNode>, p: Seq<char>, i: int)
    ensures
        exists|a: int, b: int|
            0 <= a <= b <= files_of(s).len() && paths_at_from(s, p, i) == file_paths(
                #[trigger] files_of(s).subrange(a, b),
            ),
    decreases s, s.len() - i,
{
    let fs = files_of(s);
    if i < 0 || i >= s.len() {
        assert(file_paths(fs.subrange(0, 0)) =~= Seq::<Seq<char>>::empty());
        assert(paths_at_from(s, p, i) == file_paths(fs.subrange(0, 0)));
    } else {
        let r = paths_at(s[i], p);
        if r.len() > 0 {
            lemma_paths_at_slice(s[i], p);
            let fi = files(s[i]);
            let (a, b) = choose|a: int, b: int|
                0 <= a <= b <= fi.len() && r == file_paths(#[trigger] fi.subrange(a, b));
            lemma_files_of_split(s, i);
            lemma_files_of_take(s, i);
            let o = files_of(s.take(i)).len() as int;
            assert(s.skip(i) =~= seq![s[i]] + s.skip(i + 1));
            lemma_files_of_add(seq![s[i]], s.skip(i + 1));
            lemma_files_of_single(s[i]);
            assert(fs == files_of(s.take(i)) + fi + files_of(s.skip(i + 1)));
            assert(fs.subrange(o + a, o + b) =~= fi.subrange(a, b));
            assert(paths_at_from(s, p, i) == file_paths(fs.subrange(o + a, o + b)));
        } else {
            lemma_paths_at_from_slice(s, p, i + 1);
        }
    }
}

/// Where no two files of a tree share a path, the files below a path list
/// each path once.
pub proof fn law_paths_at_once(n: SNode, p: Seq<char>)
    requires
        file_paths(files(n)).no_duplicates(),
    ensures
        paths_at(n, p).no_duplicates(),
{
    lemma_paths_at_slice(n, p);
    let fs = files(n);
    let (a, b) = choose|a: int, b: int|
        0 <= a <= b <= fs.len() && paths_at(n, p) == file_paths(#[trigger] fs.subrange(a, b));
    let r = paths_at(n, p);
    assert forall|i: int, j: int| 0 <= i < r.len() && 0 <= j < r.len() && i != j implies r[i] != r[j] by {
        assert(r[i] == file_paths(fs)[a + i]);
        assert(r[j] == file_paths(fs)[a + j]);
    }
}

/// Expanding (or collapsing) the same path twice gives back the tree.
pub proof fn law_expand_twice(n: SNode, p: Seq<char>)
    ensures
        expand_toggled_at(expand_toggled_at(n, p).0, p) == (n, expand_toggled_at(n, p).1),
    decreases n, 0nat,
{
    lemma_toggled_at_not_found(n, p);
    match n {
        SNode::File(_) => {},
        SNode::Folder { path, children, .. } => {
            if path != p {
                lemma_expand_twice_from(children, p, 0);
            }
        },
    }
}

proof fn lemma_expand_from_keeps_prefix(s: Seq<SNode>, p: Seq<char>, i: int)
    requires
        0 <= i,
    ensures
        expand_toggled_at_from(s, p, i).0.len() == s.len(),
        forall|k: int| 0 <= k < i && k < s.len() ==> #[trigger] expand_toggled_at_from(s, p, i).0[k] == s[k],
    decreases s.len() - i,
{
    if i < s.len() {
        lemma_expand_from_keeps_prefix(s, p, i + 1);
    }
}

proof fn lemma_expand_twice_from(s: Seq<SNode>, p: Seq<char>, i: int)
    requires
        0 <= i,
    ensures
        expand_toggled_at_from(expand_toggled_at_from(s, p, i).0, p, i) == (
            s,
            expand_toggled_at_from(s, p, i).1,
        ),
    decreases s, s.len() - i,
{
    if i < s.len() {
        let r = expand_toggled_at(s[i], p);
        law_expand_twice(s[i], p);
        lemma_toggled_at_not_found(s[i], p);
        if r.1 {
            let u = s.update(i, r.0);
            assert(u[i] == r.0);
            assert(u.update(i, s[i]) =~= s);
        } else {
            lemma_expand_twice_from(s, p, i + 1);
            lemma_expand_from_keeps_prefix(s, p, i + 1);
            let u = expand_toggled_at_from(s, p, i + 1).0;
            assert(u[i] == s[i]);
        }
    }
}

// ------------------------------------------------------------------------
// The display list
// ------------------------------------------------------------------------

/// With every folder expanded, the display list has one row per node.
pub proof fn law_display_len(n: SNode, depth: int)
    requires
        collapsed(n).len() == 0,
    ensures
        display(n, depth).len() == size(n),
    decreases n, 1nat,
{
    match n {
        SNode::File(_) => {},
        SNode::Folder { children, .. } => {
            lemma_display_of_len(children, depth + 1);
        },
    }
}

proof fn lemma_display_of_len(s: Seq<SNode>, depth: int)
    requires
        collapsed_of(s).len() == 0,
    ensures
        display_of(s, depth).len() == size_of(s),
    decreases s, 0nat,
{
    if s.len() > 0 {
        let t = s.subrange(0, s.len() - 1);
        lemma_display_of_len(t, depth);
        law_display_len(s[s.len() - 1], depth);
    }
}

/// The rows drawn for a node: a file gives one row that shows the file; a
/// folder other than the GLOBAL root gives a row with its path, name, depth
/// and flag that counts all its files, the selectable and the checked ones
/// (checked when one is), followed by the rows of its children one level
/// deeper when it is expanded, and by nothing when it is collapsed.
pub proof fn law_display_rows(n: SNode, depth: int)
    ensures
        display(n, depth).len() > 0,
        match n {
            SNode::File(f) => display(n, depth) == seq![
                SItem {
                    path: f.path,
                    depth,
                    label: f.name,
                    is_folder: false,
                    is_expanded: false,
                    state: f.state,
                    checked: f.checked,
                    ignored: f.ignored,
                    total_count: 0,
                    selectable_count: 0,
                    checked_count: 0,
                    commit_info: f.commit_info,
                },
            ],
            SNode::Folder { name, path, children, expanded } => !is_global(path, depth) ==> {
                let row = display(n, depth)[0];
                &&& row.path == path
                &&& row.depth == depth
                &&& row.label == name
                &&& row.is_folder
                &&& row.is_expanded == expanded
                &&& !row.ignored
                &&& row.commit_info is None
                &&& row.total_count == files(n).len()
                &&& row.selectable_count == count_selectable(files(n))
                &&& row.checked_count == count_checked(files(n))
                &&& row.checked == (count_checked(files(n)) > 0)
                &&& display(n, depth).drop_first() == if expanded {
                    display_of(children, depth + 1)
                } else {
                    Seq::empty()
                }
            },
        },
{
    match n {
        SNode::File(_) => {},
        SNode::Folder { path, children, expanded, .. } => {
            if is_global(path, depth) || expanded {
                assert(display(n, depth).drop_first() =~= display_of(children, depth + 1));
            } else {
                assert(display(n, depth).drop_first() =~= Seq::<SItem>::empty());
            }
        },
    }
}

/// The first row of the root drawn at depth 0 is the GLOBAL row: it counts
/// every file, every selectable and every checked file of the tree, and it is followed by
/// the rows of the root's children one level deeper, expanded or not.
pub proof fn law_display_root(children: Seq<SNode>, expanded: bool)
    ensures
        ({
            let root = SNode::Folder {
                name: root_path(),
                path: root_path(),
                children,
                expanded,
            };
            &&& display(root, 0)[0].label == global_label()
            &&& display(root, 0)[0].depth == 0
            &&& display(root, 0)[0].is_folder
            &&& display(root, 0)[0].total_count == files_of(children).len()
            &&& display(root, 0)[0].selectable_count == count_selectable(files_of(children))
            &&& display(root, 0)[0].checked_count == count_checked(files_of(children))
            &&& display(root, 0).drop_first() == display_of(children, 1)
        }),
{
    let root = SNode::Folder { name: root_path(), path: root_path(), children, expanded };
    assert(display(root, 0).drop_first() =~= display_of(children, 1));
}

// ------------------------------------------------------------------------
// Heights are kept
// ------------------------------------------------------------------------

proof fn lemma_height_of_update(s: Seq<SNode>, i: int, x: SNode)
    requires
        0 <= i < s.len(),
        height(x) == height(s[i]),
    ensures
        height_of(s.update(i, x)) == height_of(s),
    decreases s.len(),
{
    let u = s.update(i, x);
    if i < s.len() - 1 {
        lemma_height_of_update(s.subrange(0, s.len() - 1), i, x);
        assert(u.subrange(0, u.len() - 1) =~= s.subrange(0, s.len() - 1).update(i, x));
    } else {
        assert(u.subrange(0, u.len() - 1) =~= s.subrange(0, s.len() - 1));
    }
}

proof fn lemma_height_with_checked(n: SNode, c: bool)
    ensures
        height(with_checked(n, c)) == height(n),
    decreases n, 1nat,
{
    match n {
        SNode::File(_) => {},
        SNode::Folder { children, .. } => {
            lemma_height_all_with_checked(children, c);
        },
    }
}

proof fn lemma_height_all_with_checked(s: Seq<SNode>, c: bool)
    ensures
        height_of(all_with_checked(s, c)) == height_of(s),
    decreases s, 0nat,
{
    if s.len() > 0 {
        let t = s.subrange(0, s.len() - 1);
        let w = all_with_checked(s, c);
        lemma_height_all_with_checked(t, c);
        lemma_height_with_checked(s[s.len() - 1], c);
        assert(w.subrange(0, w.len() - 1) =~= all_with_checked(t, c));
    }
}

/// Toggling at a path keeps the tree's height.
pub proof fn lemma_height_toggled_at(n: SNode, p: Seq<char>)
    ensures
        height(toggled_at(n, p).0) == height(n),
    decreases n, 0nat,
{
    if same_path(n.path(), p) {
        match n {
            SNode::File(_) => {},
            SNode::Folder { .. } => {
                lemma_height_with_checked(n, count_checked(files(n)) < count_selectable(files(n)));
            },
        }
    } else {
        match n {
            SNode::File(_) => {},
            SNode::Folder { children, .. } => {
                lemma_height_toggled_at_from(children, p, 0);
            },
        }
    }
}

proof fn lemma_height_toggled_at_from(s: Seq<SNode>, p: Seq<char>, i: int)
    ensures
        height_of(toggled_at_from(s, p, i).0) == height_of(s),
    decreases s, s.len() - i,
{
    if 0 <= i < s.len() {
        let r = toggled_at(s[i], p);
        if r.1 {
            lemma_height_toggled_at(s[i], p);
            lemma_height_of_update(s, i, r.0);
        } else {
            lemma_height_toggled_at_from(s, p, i + 1);
        }
    }
}

/// Expanding or collapsing at a path keeps the tree's height.
pub proof fn lemma_height_expand_toggled_at(n: SNode, p: Seq<char>)
    ensures
        height(expand_toggled_at(n, p).0) == height(n),
    decreases n, 0nat,
{
    match n {
        SNode::File(_) => {},
        SNode::Folder { path, children, .. } => {
            if path != p {
                lemma_height_expand_toggled_at_from(children, p, 0);
            }
        },
    }
}

proof fn lemma_height_expand_toggled_at_from(s: Seq<SNode>, p: Seq<char>, i: int)
    ensures
        height_of(expand_toggled_at_from(s, p, i).0) == height_of(s),
    decreases s, s.len() - i,
{
    if 0 <= i < s.len() {
        let r = expand_toggled_at(s[i], p);
        if r.1 {
            lemma_height_expand_toggled_at(s[i], p);
            lemma_height_of_update(s, i, r.0);
        } else {
            lemma_height_expand_toggled_at_from(s, p, i + 1);
        }
    }
}

/// Collapsing folders by path keeps the tree's height.
pub proof fn lemma_height_with_collapsed(n: SNode, ps: Seq<Seq<char>>)
    ensures
        height(with_collapsed(n, ps)) == height(n),
    decreases n, 1nat,
{
    match n {
        SNode::File(_) => {},
        SNode::Folder { children, .. } => {
            lemma_height_all_with_collapsed(children, ps);
        },
    }
}

proof fn lemma_height_all_with_collapsed(s: Seq<SNode>, ps: Seq<Seq<char>>)
    ensures
        height_of(all_with_collapsed(s, ps)) == height_of(s),
    decreases s, 0nat,
{
    if s.len() > 0 {
        let t = s.subrange(0, s.len() - 1);
        let w = all_with_collapsed(s, ps);
        lemma_height_all_with_collapsed(t, ps);
        lemma_height_with_collapsed(s[s.len() - 1], ps);
        assert(w.subrange(0, w.len() - 1) =~= all_with_collapsed(t, ps));
    }
}

} // verus!
